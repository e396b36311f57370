use helix_notebook::graphics::{GraphicsProtocol, KittyProtocol};

#[test]
fn extracts_id_from_virtual_placement() {
    let p = KittyProtocol;
    let payload = "\x1b_Ga=T,f=100,t=d,q=2,U=1,i=1001,m=0;abcd\x1b\\";
    assert_eq!(p.extract_image_id(payload), Some(1001));
}

#[test]
fn extracts_id_from_direct_placement() {
    // Capital-I is the client reference id, not the image id.
    let p = KittyProtocol;
    let payload = "\x1b_Ga=T,f=100,t=d,q=2,I=42,r=12,m=0;abcd\x1b\\";
    assert_eq!(p.extract_image_id(payload), None);
}

#[test]
fn returns_none_on_non_apc_payload() {
    let p = KittyProtocol;
    assert_eq!(p.extract_image_id("hello world"), None);
    assert_eq!(p.extract_image_id(""), None);
}

#[test]
fn returns_none_on_unterminated_header() {
    let p = KittyProtocol;
    assert_eq!(p.extract_image_id("\x1b_Ga=T,i=5"), None);
}

#[test]
fn ignores_bad_integer() {
    let p = KittyProtocol;
    let payload = "\x1b_Ga=T,i=notanumber;abcd\x1b\\";
    assert_eq!(p.extract_image_id(payload), None);
}

#[test]
fn handles_id_at_start_of_parameter_list() {
    let p = KittyProtocol;
    let payload = "\x1b_Gi=7,a=T,U=1;abcd\x1b\\";
    assert_eq!(p.extract_image_id(payload), Some(7));
}

#[test]
fn write_delete_emits_expected_escape() {
    let p = KittyProtocol;
    let mut buf = Vec::new();
    p.write_delete(42, &mut buf);
    assert_eq!(buf, b"\x1b_Ga=d,d=I,i=42,q=2\x1b\\");
}

#[test]
fn id_round_trips_through_a_header() {
    let p = KittyProtocol;
    for id in [0u64, 9, 10, 18446744073709551615] {
        let payload = format!("\x1b_Gi={id};rest");
        assert_eq!(p.extract_image_id(&payload), Some(id));
    }
    assert_eq!(p.extract_image_id("\x1b_Gi=18446744073709551616;"), None);
    assert_eq!(p.extract_image_id("\x1b_Ga=T,i=+3;"), Some(3));
    assert_eq!(p.extract_image_id("xx\x1b_Gi=1,i=2;"), Some(1));
}
