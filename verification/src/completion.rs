//! Ranking of completion labels from Julia's `\:` emoji namespace.

use vstd::prelude::*;

use crate::text::chars_of;
use vstd::assert_by_contradiction;

verus! {

/// Whether `s` starts with `prefix`.
pub open spec fn starts_with(s: Seq<char>, prefix: Seq<char>) -> bool {
    prefix.len() <= s.len() && s.take(prefix.len() as int) == prefix
}

/// Whether `label` lies in Julia's emoji namespace: it starts with `\:`.
pub open spec fn in_emoji_namespace(label: Seq<char>) -> bool {
    label.len() >= 2 && label[0] == '\\' && label[1] == ':'
}

/// Whether `label` ranks below real matches for the typed text `typed`: an
/// emoji label sinks when nothing is typed, or when the typed text does not
/// begin the emoji's name.
pub open spec fn demoted(label: Seq<char>, typed: Seq<char>) -> bool {
    in_emoji_namespace(label) && (typed.len() == 0 || !starts_with(label.skip(2), typed))
}

/// A Julia emoji label `\:name` sinks below real matches for a typed text
/// that is not empty exactly when that text does not begin the name: some
/// typed character lies past the end of the name, or differs from the
/// name's character at its place. Every emoji label sinks while nothing is
/// typed, and a label outside the `\:` namespace never sinks.
pub proof fn lemma_emoji_demoted_unless_typed_begins_name(name: Seq<char>, typed: Seq<char>, other: Seq<char>)
    requires
        !(other.len() >= 2 && other[0] == '\\' && other[1] == ':'),
    ensures
        typed.len() > 0 ==> (demoted(seq!['\\', ':'] + name, typed) <==> exists|i: int|
            0 <= i < typed.len() && (i >= name.len() || name[i] != #[trigger] typed[i])),
        demoted(seq!['\\', ':'] + name, Seq::<char>::empty()),
        !demoted(other, typed),
{
    let label = seq!['\\', ':'] + name;
    assert(label.skip(2) =~= name);
    assert(label[0] == '\\' && label[1] == ':');
    assert(in_emoji_namespace(label));
    assert(demoted(label, typed) == !starts_with(name, typed) || typed.len() == 0);
    if typed.len() > 0 {
        if starts_with(name, typed) {
            assert forall|i: int| 0 <= i < typed.len() implies !(i >= name.len() || name[i] != #[trigger] typed[i]) by {
                assert(name.take(typed.len() as int)[i] == name[i]);
            }
            assert(!demoted(label, typed));
            assert(!(exists|i: int| 0 <= i < typed.len() && (i >= name.len() || name[i] != #[trigger] typed[i])));
        } else if typed.len() > name.len() {
            let i = name.len() as int;
            assert(i >= name.len() && 0 <= i < typed.len());
            let c = typed[i];
            assert(c == typed[i]);
            assert(!starts_with(name, typed));
            assert(demoted(label, typed));
            assert(exists|i: int| 0 <= i < typed.len() && (i >= name.len() || name[i] != #[trigger] typed[i]));
        } else {
            assert(name.take(typed.len() as int) != typed);
            assert_by_contradiction!(exists|i: int| 0 <= i < typed.len() && (i >= name.len() || name[i] != #[trigger] typed[i]), {
                assert(name.take(typed.len() as int) =~= typed);
            });
        }
    }
}

/// Whether `s` begins with `prefix`, as characters from index `from` of `s`.
fn chars_start_with(s: &[char], from: usize, prefix: &[char]) -> (r: bool)
    requires
        from <= s@.len(),
    ensures
        r == starts_with(s@.skip(from as int), prefix@),
{
    let n = s.len();
    if prefix.len() > n - from {
        return false;
    }
    let mut i: usize = 0;
    while i < prefix.len()
        invariant
            i <= prefix@.len(),
            n == s@.len(),
            from + prefix@.len() <= n,
            forall|k: int| 0 <= k < i ==> s@[from + k] == prefix@[k],
        decreases prefix@.len() - i,
    {
        let at = from + i;
        if s[at] != prefix[i] {
            proof {
                assert(s@.skip(from as int).take(prefix@.len() as int)[i as int] != prefix@[i as int]);
            }
            return false;
        }
        i = i + 1;
    }
    proof {
        assert(s@.skip(from as int).take(prefix@.len() as int) =~= prefix@);
    }
    true
}

/// Whether a completion label should rank below real matches for the typed
/// text `typed`: labels in Julia's `\:` emoji namespace sink, unless the
/// typed text begins the emoji's name.
pub fn demote_julia_emoji_label(filter_text: &str, typed: &str) -> (r: bool)
    ensures
        r == demoted(filter_text@, typed@),
{
    let label = chars_of(filter_text);
    if !(label.len() >= 2 && label[0] == '\\' && label[1] == ':') {
        return false;
    }
    let typed_chars = chars_of(typed);
    typed_chars.len() == 0 || !chars_start_with(label.as_slice(), 2, typed_chars.as_slice())
}

/// Whether a completion label lies in Julia's `\:` emoji namespace, which
/// carries no code meaning.
pub fn is_julia_emoji_label(filter_text: &str) -> (r: bool)
    ensures
        r == in_emoji_namespace(filter_text@),
{
    let label = chars_of(filter_text);
    label.len() >= 2 && label[0] == '\\' && label[1] == ':'
}


/// A language server, by its id.
#[derive(Clone, Copy, Debug, PartialEq, Eq, Structural)]
pub struct LanguageServerId {
    pub id: u64,
}

/// Where a completion item comes from.
#[derive(Clone, Copy, Debug, PartialEq, Eq, Structural)]
pub enum CompletionProvider {
    Lsp(LanguageServerId),
    Path,
    Word,
}

/// What completion reads of an item that a language server sent: its
/// label, the text it is filtered by where that differs from the label,
/// and whether the server preselects it.
pub struct LspItem {
    pub label: String,
    pub filter_text: Option<String>,
    pub preselect: Option<bool>,
}

/// An item of a language server, with the server it came from, whether it
/// has been resolved, and the priority of that server.
pub struct LspCompletionItem {
    pub item: LspItem,
    pub provider: LanguageServerId,
    pub resolved: bool,
    pub provider_priority: i8,
}

/// An item from another source than a language server, such as a path.
pub struct OtherCompletionItem {
    pub label: String,
    pub provider: CompletionProvider,
}

/// A completion item, from a language server or from elsewhere.
pub enum CompletionItem {
    Lsp(LspCompletionItem),
    Other(OtherCompletionItem),
}

/// The items of one completion response: as a language server sent them,
/// or already made into completion items.
pub enum CompletionItems {
    Lsp(Vec<LspItem>),
    Other(Vec<CompletionItem>),
}

/// What a response carries besides its items: whether the list is
/// incomplete, and the priority of its provider.
#[derive(Clone, Copy)]
pub struct ResponseContext {
    pub is_incomplete: bool,
    pub priority: i8,
}

/// A response to a completion request.
pub struct CompletionResponse {
    pub items: CompletionItems,
    pub provider: CompletionProvider,
    pub context: ResponseContext,
}

/// The text a language server's item is filtered by: its filter text, or
/// its label where it has none.
pub open spec fn lsp_filter_text(item: LspItem) -> Seq<char> {
    match item.filter_text {
        Some(t) => t@,
        None => item.label@,
    }
}

/// The text a completion item is filtered by.
pub open spec fn item_filter_text(item: CompletionItem) -> Seq<char> {
    match item {
        CompletionItem::Lsp(i) => lsp_filter_text(i.item),
        CompletionItem::Other(i) => i.label@,
    }
}

/// The completion item made of a language server's item `item` from the
/// response of `provider` with priority `priority`: unresolved, and ranked
/// by that priority.
pub open spec fn lsp_entry(item: LspItem, provider: CompletionProvider, priority: i8) -> CompletionItem {
    CompletionItem::Lsp(
        LspCompletionItem { item, provider: provider->0, resolved: false, provider_priority: priority },
    )
}

impl CompletionItems {
    /// Whether there are no items.
    pub fn is_empty(&self) -> (r: bool)
        ensures
            r == match self {
                CompletionItems::Lsp(items) => items@.len() == 0,
                CompletionItems::Other(items) => items@.len() == 0,
            },
    {
        match self {
            CompletionItems::Lsp(items) => items.len() == 0,
            CompletionItems::Other(items) => items.len() == 0,
        }
    }
}

impl CompletionResponse {
    /// Moves the items of the response to the end of `dst`, in order, each
    /// item of a language server made into a completion item of this
    /// response's server and priority, and leaves the response empty.
    pub fn take_items(&mut self, dst: &mut Vec<CompletionItem>)
        requires
            old(self).items matches CompletionItems::Lsp(items) && items@.len() > 0
                ==> old(self).provider is Lsp,
        ensures
            final(self).provider == old(self).provider,
            final(self).context == old(self).context,
            match old(self).items {
                CompletionItems::Lsp(items) => {
                    &&& final(self).items matches CompletionItems::Lsp(rest) && rest@.len() == 0
                    &&& final(dst)@ == old(dst)@ + items@.map_values(
                        |item: LspItem| lsp_entry(item, old(self).provider, old(self).context.priority),
                    )
                },
                CompletionItems::Other(items) => {
                    &&& final(self).items matches CompletionItems::Other(rest) && rest@.len() == 0
                    &&& final(dst)@ == old(dst)@ + items@
                },
            },
    {
        let mut items = CompletionItems::Other(Vec::new());
        std::mem::swap(&mut items, &mut self.items);
        match items {
            CompletionItems::Lsp(mut taken) => {
                let ghost d0 = dst@;
                let ghost all = taken@;
                let provider = self.provider;
                let priority = self.context.priority;
                if let CompletionProvider::Lsp(id) = provider {
                    let mut moved: Vec<CompletionItem> = Vec::new();
                    let ghost f = |item: LspItem| lsp_entry(item, provider, priority);
                    while taken.len() > 0
                        invariant
                            provider == CompletionProvider::Lsp(id),
                            f == (|item: LspItem| lsp_entry(item, provider, priority)),
                            moved@ + taken@.map_values(f).reverse() == all.map_values(f).reverse(),
                        decreases taken@.len(),
                    {
                        let ghost before = taken@;
                        let item = taken.pop().unwrap();
                        moved.push(
                            CompletionItem::Lsp(
                                LspCompletionItem { item, provider: id, resolved: false, provider_priority: priority },
                            ),
                        );
                        proof {
                            assert(before =~= taken@.push(item));
                            assert(before.map_values(f).reverse() =~= seq![f(item)] + taken@.map_values(f).reverse());
                        }
                    }
                    proof {
                        assert(moved@ =~= all.map_values(f).reverse());
                    }
                    let ghost m0 = moved@;
                    while moved.len() > 0
                        invariant
                            dst@ + moved@.reverse() == d0 + m0.reverse(),
                        decreases moved@.len(),
                    {
                        let ghost before = moved@;
                        let entry = moved.pop().unwrap();
                        dst.push(entry);
                        proof {
                            assert(before =~= moved@.push(entry));
                            assert(before.reverse() =~= seq![entry] + moved@.reverse());
                            assert(dst@ + moved@.reverse() =~= (dst@.drop_last() + before.reverse()));
                        }
                    }
                    proof {
                        assert(dst@ =~= d0 + m0.reverse());
                        assert(m0.reverse() =~= all.map_values(f));
                    }
                } else {
                    proof {
                        assert(all.map_values(|item: LspItem| lsp_entry(item, provider, priority)) =~= Seq::empty());
                        assert(d0 + Seq::<CompletionItem>::empty() =~= d0);
                    }
                }
                self.items = CompletionItems::Lsp(Vec::new());
            },
            CompletionItems::Other(mut taken) => {
                if dst.len() == 0 {
                    std::mem::swap(dst, &mut taken);
                    proof {
                        assert(dst@ =~= old(dst)@ + dst@);
                    }
                } else {
                    dst.append(&mut taken);
                }
                self.items = CompletionItems::Other(taken);
            },
        }
    }
}

impl LspCompletionItem {
    /// The text the item is filtered by: its filter text, or its label.
    pub fn filter_text(&self) -> (r: &str)
        ensures
            r@ == lsp_filter_text(self.item),
    {
        match &self.item.filter_text {
            Some(t) => t.as_str(),
            None => self.item.label.as_str(),
        }
    }
}

impl CompletionItem {
    /// The text the item is filtered by.
    pub fn filter_text(&self) -> (r: &str)
        ensures
            r@ == item_filter_text(*self),
    {
        match self {
            CompletionItem::Lsp(item) => item.filter_text(),
            CompletionItem::Other(item) => item.label.as_str(),
        }
    }

    /// The priority the item ranks by: its server's, or 1 for items from
    /// elsewhere, which rank after those of language servers.
    pub fn provider_priority(&self) -> (r: i8)
        ensures
            r == match self {
                CompletionItem::Lsp(item) => item.provider_priority,
                CompletionItem::Other(_) => 1,
            },
    {
        match self {
            CompletionItem::Lsp(item) => item.provider_priority,
            CompletionItem::Other(_) => 1,
        }
    }

    /// Where the item comes from.
    pub fn provider(&self) -> (r: CompletionProvider)
        ensures
            r == match self {
                CompletionItem::Lsp(item) => CompletionProvider::Lsp(item.provider),
                CompletionItem::Other(item) => item.provider,
            },
    {
        match self {
            CompletionItem::Lsp(item) => CompletionProvider::Lsp(item.provider),
            CompletionItem::Other(item) => item.provider,
        }
    }

    /// Whether the item is preselected: only a language server's item can
    /// be, where the server says so.
    pub fn preselect(&self) -> (r: bool)
        ensures
            r == match self {
                CompletionItem::Lsp(item) => item.item.preselect == Some(true),
                CompletionItem::Other(_) => false,
            },
    {
        match self {
            CompletionItem::Lsp(item) => match item.item.preselect {
                Some(p) => p,
                None => false,
            },
            CompletionItem::Other(_) => false,
        }
    }

    /// Whether the item ranks below real matches for the typed text
    /// `typed`, as [`demote_julia_emoji_label`] decides for its filter text.
    pub fn demote_julia_emoji_below(&self, typed: &str) -> (r: bool)
        ensures
            r == demoted(item_filter_text(*self), typed@),
    {
        demote_julia_emoji_label(self.filter_text(), typed)
    }
}

} // verus!
