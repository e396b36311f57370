use helix_notebook::completion::{
    demote_julia_emoji_label, is_julia_emoji_label, CompletionItem, CompletionItems, CompletionProvider,
    CompletionResponse, LanguageServerId, LspCompletionItem, LspItem, OtherCompletionItem, ResponseContext,
};

fn lsp_item(label: &str, filter: Option<&str>, preselect: Option<bool>) -> LspItem {
    LspItem { label: label.to_string(), filter_text: filter.map(|f| f.to_string()), preselect }
}

fn other(label: &str) -> CompletionItem {
    CompletionItem::Other(OtherCompletionItem { label: label.to_string(), provider: CompletionProvider::Path })
}

#[test]
fn emoji_namespace_detected_by_backslash_colon_prefix() {
    assert!(is_julia_emoji_label("\\:apple:"));
    assert!(is_julia_emoji_label("\\:"));
}

#[test]
fn latex_code_and_symbol_labels_are_not_emoji() {
    for label in ["\\alpha", "\\^a", "println", ":symbol", ""] {
        assert!(!is_julia_emoji_label(label), "{label} must not demote");
    }
}

#[test]
fn fuzzy_matched_emoji_sink_but_explicit_requests_keep_place() {
    assert!(demote_julia_emoji_label("\\:apple:", ""));
    assert!(demote_julia_emoji_label("\\:apple:", "alp"));
    assert!(!demote_julia_emoji_label("\\:apple:", "apple"));
    assert!(!demote_julia_emoji_label("\\:apple:", "app"));
}

#[test]
fn real_symbols_never_sink() {
    for typed in ["", "a", "alp", "alpha"] {
        assert!(!demote_julia_emoji_label("\\alpha", typed));
        assert!(!demote_julia_emoji_label("println", typed));
    }
}

#[test]
fn typed_text_longer_than_the_emoji_name_sinks() {
    assert!(demote_julia_emoji_label("\\:ab", "abc"));
    assert!(!demote_julia_emoji_label("\\:é", "é"));
}

#[test]
fn lsp_items_are_taken_with_server_and_priority() {
    let server = LanguageServerId { id: 7 };
    let mut response = CompletionResponse {
        items: CompletionItems::Lsp(vec![lsp_item("alpha", None, None), lsp_item("beta", Some("b"), Some(true))]),
        provider: CompletionProvider::Lsp(server),
        context: ResponseContext { is_incomplete: false, priority: -3 },
    };
    let mut dst = vec![other("first")];
    response.take_items(&mut dst);
    assert!(response.items.is_empty());
    assert_eq!(dst.len(), 3);
    assert_eq!(dst[0].filter_text(), "first");
    assert_eq!(dst[1].filter_text(), "alpha");
    assert_eq!(dst[2].filter_text(), "b");
    match &dst[2] {
        CompletionItem::Lsp(item) => {
            assert_eq!(item.provider, server);
            assert!(!item.resolved);
            assert_eq!(item.provider_priority, -3);
        }
        CompletionItem::Other(_) => panic!("expected a language server item"),
    }
    assert_eq!(dst[1].provider_priority(), -3);
    assert_eq!(dst[1].provider(), CompletionProvider::Lsp(server));
    assert!(!dst[1].preselect());
    assert!(dst[2].preselect());
}

#[test]
fn other_items_are_appended_in_order() {
    let mut response = CompletionResponse {
        items: CompletionItems::Other(vec![other("x"), other("y")]),
        provider: CompletionProvider::Path,
        context: ResponseContext { is_incomplete: false, priority: 0 },
    };
    let mut dst = Vec::new();
    response.take_items(&mut dst);
    assert!(response.items.is_empty());
    assert_eq!(dst.iter().map(|i| i.filter_text()).collect::<Vec<_>>(), vec!["x", "y"]);
    let mut more = CompletionResponse {
        items: CompletionItems::Other(vec![other("z")]),
        provider: CompletionProvider::Word,
        context: ResponseContext { is_incomplete: true, priority: 0 },
    };
    more.take_items(&mut dst);
    assert_eq!(dst.iter().map(|i| i.filter_text()).collect::<Vec<_>>(), vec!["x", "y", "z"]);
    assert_eq!(dst[2].provider_priority(), 1);
    assert_eq!(dst[2].provider(), CompletionProvider::Path);
    assert!(!dst[2].preselect());
}

#[test]
fn emoji_items_sink_by_filter_text() {
    let item = CompletionItem::Lsp(LspCompletionItem {
        item: lsp_item("apple emoji", Some("\\:apple:"), None),
        provider: LanguageServerId { id: 1 },
        resolved: false,
        provider_priority: 0,
    });
    assert!(item.demote_julia_emoji_below("alp"));
    assert!(!item.demote_julia_emoji_below("app"));
    assert!(!other("\\alpha").demote_julia_emoji_below(""));
}
