//! Terminal graphics protocols: the escape sequences that retire an inline
//! image, and reading an image's id back out of a transmission payload.

use vstd::prelude::*;

use crate::text::{
    chars_of, decimal_digits, index_of_from, is_ascii_digit, lemma_decimal_digits_value,
    lemma_next_index_at, lemma_next_index_of, lemma_parse_decimal_round_trip, next_index_of,
    parse_unsigned, parse_unsigned_chars,
};

verus! {

/// What a terminal graphics protocol must do so that the renderer can
/// manage the life of images without knowing the wire format.
pub trait GraphicsProtocol {
    /// Appends the protocol's escape sequence that deletes the image `id`.
    fn write_delete(&self, id: u64, w: &mut Vec<u8>);

    /// The image id that a transmission payload carries, or `None` where
    /// the payload is malformed or carries none.
    fn extract_image_id(&self, payload: &str) -> Option<u64>;
}

/// The ASCII byte of a character below 128.
pub open spec fn ascii_byte(c: char) -> u8 {
    c as u8
}

/// The Kitty escape that deletes the image `id` by id, quietly:
/// `ESC _ G a=d,d=I,i=<id>,q=2 ESC \`.
pub open spec fn kitty_delete_escape(id: u64) -> Seq<u8> {
    seq![0x1bu8, 0x5fu8, 0x47u8, 0x61u8, 0x3du8, 0x64u8, 0x2cu8, 0x64u8, 0x3du8, 0x49u8, 0x2cu8, 0x69u8, 0x3du8]
        + decimal_digits(id as nat).map_values(|c: char| ascii_byte(c))
        + seq![0x2cu8, 0x71u8, 0x3du8, 0x32u8, 0x1bu8, 0x5cu8]
}

/// The index of the first `ESC _ G` in `s` at or after `from`, if any.
pub open spec fn find_apc_start(s: Seq<char>, from: int) -> Option<int>
    decreases s.len() - from,
{
    if from < 0 || from + 3 > s.len() {
        None
    } else if s[from] == '\x1b' && s[from + 1] == '_' && s[from + 2] == 'G' {
        Some(from)
    } else {
        find_apc_start(s, from + 1)
    }
}

/// Whether `field` starts with `i=`.
pub open spec fn is_id_field(field: Seq<char>) -> bool {
    field.len() >= 2 && field[0] == 'i' && field[1] == '='
}

/// The id that the comma-separated fields of `header` from `from` give: the
/// value of the first field of the form `i=<value>`, read as a `u64`, or
/// `None` where that value is not one or no field has that form.
pub open spec fn id_from_fields(header: Seq<char>, from: int) -> Option<u64>
    decreases header.len() - from,
{
    let end = next_index_of(header, ',', from);
    if from < 0 || from > header.len() {
        None
    } else if is_id_field(header.subrange(from, end)) {
        match parse_unsigned(header.subrange(from + 2, end), u64::MAX as nat) {
            Some(v) => Some(v as u64),
            None => None,
        }
    } else if end >= header.len() {
        None
    } else {
        proof {
            lemma_next_index_of(header, ',', from);
        }
        id_from_fields(header, end + 1)
    }
}

/// An escape found lies within `s`, at or after where the search started.
pub proof fn lemma_find_apc_start(s: Seq<char>, from: int)
    requires
        0 <= from,
    ensures
        find_apc_start(s, from) matches Some(a) ==> from <= a && a + 3 <= s.len(),
    decreases s.len() - from,
{
    if from + 3 <= s.len() && !(s[from] == '\x1b' && s[from + 1] == '_' && s[from + 2] == 'G') {
        lemma_find_apc_start(s, from + 1);
    }
}

/// The image id of a Kitty transmission payload: in its first `ESC _ G`
/// escape, the header runs to the first `;` after it, and is a
/// comma-separated list of `key=value` fields, of which the first `i=`
/// gives the id.
pub open spec fn kitty_image_id(payload: Seq<char>) -> Option<u64> {
    match find_apc_start(payload, 0) {
        None => None,
        Some(a) => {
            let rest = payload.skip(a + 3);
            let end = next_index_of(rest, ';', 0);
            if end >= rest.len() {
                None
            } else {
                id_from_fields(rest.take(end), 0)
            }
        },
    }
}

/// The Kitty graphics protocol, which has no state. Images are sent once
/// under a stable id, which Kitty caches, and placeholder cells in the text
/// grid refer to them by id.
#[derive(Debug, Default, Clone, Copy)]
pub struct KittyProtocol;

/// The first `ESC _ G` in `s`, if any.
fn apc_start(s: &[char]) -> (r: Option<usize>)
    ensures
        match r {
            Some(a) => find_apc_start(s@, 0) == Some(a as int),
            None => find_apc_start(s@, 0) is None,
        },
{
    if s.len() < 3 {
        return None;
    }
    let mut i: usize = 0;
    while i <= s.len() - 3
        invariant
            s@.len() >= 3,
            find_apc_start(s@, 0) == find_apc_start(s@, i as int),
        decreases s@.len() - i,
    {
        if s[i] == '\x1b' && s[i + 1] == '_' && s[i + 2] == 'G' {
            return Some(i);
        }
        i = i + 1;
    }
    None
}

/// The id that the fields of `header` from `from` give.
fn id_from_header(header: &[char], from: usize) -> (r: Option<u64>)
    requires
        from <= header@.len(),
    ensures
        r == id_from_fields(header@, from as int),
    decreases header@.len() - from,
{
    let end = index_of_from(header, ',', from);
    proof {
        lemma_next_index_of(header@, ',', from as int);
    }
    if end - from >= 2 && header[from] == 'i' && header[from + 1] == '=' {
        proof {
            assert(is_id_field(header@.subrange(from as int, end as int)));
        }
        let value = &header[from + 2..end];
        let parsed = parse_unsigned_chars(value, u64::MAX);
        proof {
            assert(value@ =~= header@.subrange(from + 2, end as int));
        }
        parsed
    } else {
        proof {
            assert(!is_id_field(header@.subrange(from as int, end as int)));
        }
        if end >= header.len() {
            None
        } else {
            id_from_header(header, end + 1)
        }
    }
}

/// Appends the decimal digits of `n` to `w` as ASCII bytes.
fn push_decimal_bytes(n: u64, w: &mut Vec<u8>)
    ensures
        final(w)@ == old(w)@ + decimal_digits(n as nat).map_values(|c: char| ascii_byte(c)),
    decreases n,
{
    if n >= 10 {
        push_decimal_bytes(n / 10, w);
    }
    let d = (n % 10) as u8;
    let b: u8 = d + 0x30;
    w.push(b);
    proof {
        let digits = decimal_digits(n as nat);
        assert(ascii_byte(crate::text::digit_char((n % 10) as nat)) == b);
        if n >= 10 {
            let prev = decimal_digits((n / 10) as nat);
            assert(digits == prev.push(crate::text::digit_char((n % 10) as nat)));
            assert(digits.map_values(|c: char| ascii_byte(c)) =~= prev.map_values(|c: char| ascii_byte(c)).push(b));
        } else {
            assert(digits == seq![crate::text::digit_char(n as nat)]);
            assert(digits.map_values(|c: char| ascii_byte(c)) =~= seq![b]);
        }
    }
}

impl GraphicsProtocol for KittyProtocol {
    fn write_delete(&self, id: u64, w: &mut Vec<u8>)
        ensures
            final(w)@ == old(w)@ + kitty_delete_escape(id),
    {
        let ghost start = w@;
        w.push(0x1b);
        w.push(0x5f);
        w.push(0x47);
        w.push(0x61);
        w.push(0x3d);
        w.push(0x64);
        w.push(0x2c);
        w.push(0x64);
        w.push(0x3d);
        w.push(0x49);
        w.push(0x2c);
        w.push(0x69);
        w.push(0x3d);
        let ghost head = w@;
        push_decimal_bytes(id, w);
        let ghost digits = w@;
        w.push(0x2c);
        w.push(0x71);
        w.push(0x3d);
        w.push(0x32);
        w.push(0x1b);
        w.push(0x5c);
        proof {
            let prefix = seq![
                0x1bu8,
                0x5fu8,
                0x47u8,
                0x61u8,
                0x3du8,
                0x64u8,
                0x2cu8,
                0x64u8,
                0x3du8,
                0x49u8,
                0x2cu8,
                0x69u8,
                0x3du8,
            ];
            let suffix = seq![0x2cu8, 0x71u8, 0x3du8, 0x32u8, 0x1bu8, 0x5cu8];
            assert(head =~= start + prefix);
            assert(w@ =~= digits + suffix);
            assert(w@ =~= start + kitty_delete_escape(id));
        }
    }

    fn extract_image_id(&self, payload: &str) -> (r: Option<u64>)
        ensures
            r == kitty_image_id(payload@),
    {
        let chars = chars_of(payload);
        proof {
            lemma_find_apc_start(chars@, 0);
        }
        let a = match apc_start(chars.as_slice()) {
            Some(a) => a,
            None => {
                return None;
            },
        };
        let n = chars.len();
        proof {
            assert(find_apc_start(chars@, 0) == Some(a as int));
            assert(a + 3 <= n);
        }
        let start = a + 3;
        let rest = &chars.as_slice()[start..n];
        proof {
            assert(rest@ =~= payload@.skip(a + 3));
        }
        let end = index_of_from(rest, ';', 0);
        proof {
            lemma_next_index_of(rest@, ';', 0);
        }
        if end >= rest.len() {
            return None;
        }
        let header = &rest[0..end];
        proof {
            assert(header@ =~= rest@.take(end as int));
        }
        id_from_header(header, 0)
    }
}


/// A transmission whose first escape's header is `i=<n>` carries the id `n`:
/// reading the id back gives what was written, for every id.
pub proof fn lemma_kitty_image_id_round_trip(n: u64, rest: Seq<char>)
    ensures
        kitty_image_id(seq!['\x1b', '_', 'G', 'i', '='] + decimal_digits(n as nat) + seq![';'] + rest) == Some(n),
{
    let digits = decimal_digits(n as nat);
    let p = seq!['\x1b', '_', 'G', 'i', '='] + digits + seq![';'] + rest;
    lemma_decimal_digits_value(n as nat);
    lemma_parse_decimal_round_trip(n as nat, u64::MAX as nat);
    assert(find_apc_start(p, 0) == Some(0int));
    let after = p.skip(3);
    let end: int = 2 + digits.len() as int;
    assert forall|i: int| 0 <= i < end implies #[trigger] after[i] != ';' by {
        if i >= 2 {
            assert(after[i] == digits[i - 2]);
            assert(is_ascii_digit(digits[i - 2]));
        }
    }
    assert(after[end] == ';');
    lemma_next_index_at(after, ';', 0, end);
    let header = after.take(end);
    assert forall|i: int| 0 <= i < header.len() implies #[trigger] header[i] != ',' by {
        if i >= 2 {
            assert(header[i] == digits[i - 2]);
            assert(is_ascii_digit(digits[i - 2]));
        }
    }
    lemma_next_index_at(header, ',', 0, header.len() as int);
    assert(header.subrange(0, header.len() as int) =~= header);
    assert(header.subrange(2, header.len() as int) =~= digits);
}

} // verus!
