//! The persisted document format.
//!
//! A collection of notes is stored as one JSON document: an array of
//! objects, each written as `{"id":<digits>,"content":"<text>","pinned":
//! <true|false>}`, with no whitespace between tokens and with `"` and `\`
//! in the content escaped by a backslash. `spec_encode_notes` defines the
//! document a collection produces; `spec_parse_document` defines which
//! documents are read back. The two are proved mutually inverse: reading
//! an encoded document gives back the collection it came from
//! (`lemma_document_round_trip`), and an accepted document is the
//! encoding of the collection it yields (`lemma_document_sound`).

use vstd::prelude::*;

use crate::note::{views, Note, NoteView};

verus! {

// ---------------------------------------------------------------------------
// Characters and literals
// ---------------------------------------------------------------------------
/// The opening of a note object, up to the id's digits.
pub open spec fn lit_id() -> Seq<char> {
    seq!['{', '"', 'i', 'd', '"', ':']
}

/// The content key between the id and the content text, including the
/// content's opening quote.
pub open spec fn lit_content() -> Seq<char> {
    seq![',', '"', 'c', 'o', 'n', 't', 'e', 'n', 't', '"', ':', '"']
}

/// The pinned key between the content's closing quote and the flag.
pub open spec fn lit_pinned() -> Seq<char> {
    seq![',', '"', 'p', 'i', 'n', 'n', 'e', 'd', '"', ':']
}

/// The characters of `true`.
pub open spec fn lit_true() -> Seq<char> {
    seq!['t', 'r', 'u', 'e']
}

/// The characters of `false`.
pub open spec fn lit_false() -> Seq<char> {
    seq!['f', 'a', 'l', 's', 'e']
}

/// The characters of a pinned flag.
pub open spec fn bool_lit(b: bool) -> Seq<char> {
    if b {
        lit_true()
    } else {
        lit_false()
    }
}

/// The decimal digit with value `d`.
pub open spec fn digit_char(d: int) -> char {
    if d == 0 {
        '0'
    } else if d == 1 {
        '1'
    } else if d == 2 {
        '2'
    } else if d == 3 {
        '3'
    } else if d == 4 {
        '4'
    } else if d == 5 {
        '5'
    } else if d == 6 {
        '6'
    } else if d == 7 {
        '7'
    } else if d == 8 {
        '8'
    } else {
        '9'
    }
}

/// The value of a decimal digit.
pub open spec fn digit_val(c: char) -> int {
    if c == '0' {
        0
    } else if c == '1' {
        1
    } else if c == '2' {
        2
    } else if c == '3' {
        3
    } else if c == '4' {
        4
    } else if c == '5' {
        5
    } else if c == '6' {
        6
    } else if c == '7' {
        7
    } else if c == '8' {
        8
    } else {
        9
    }
}

/// Whether `c` is a decimal digit.
pub open spec fn is_digit(c: char) -> bool {
    c == '0' || c == '1' || c == '2' || c == '3' || c == '4' || c == '5' || c == '6' || c == '7'
        || c == '8' || c == '9'
}

// ---------------------------------------------------------------------------
// Encoding
// ---------------------------------------------------------------------------
/// The decimal digits of `n`, most significant first, with no leading
/// zeros (the number 0 is the single digit `0`).
pub open spec fn spec_dec(n: nat) -> Seq<char>
    decreases n,
{
    if n < 10 {
        seq![digit_char(n as int)]
    } else {
        spec_dec(n / 10).push(digit_char((n % 10) as int))
    }
}

/// How one content character is written: `"` and `\` get a backslash in
/// front, every other character stands as itself.
pub open spec fn esc_char(c: char) -> Seq<char> {
    if c == '"' || c == '\\' {
        seq!['\\', c]
    } else {
        seq![c]
    }
}

/// The escaped form of a content text.
pub open spec fn spec_esc(s: Seq<char>) -> Seq<char>
    decreases s.len(),
{
    if s.len() == 0 {
        Seq::<char>::empty()
    } else {
        spec_esc(s.drop_last()) + esc_char(s.last())
    }
}

/// The characters of one encoded note object.
pub open spec fn spec_encode_note(n: NoteView) -> Seq<char> {
    lit_id() + spec_dec(n.id as nat) + lit_content() + spec_esc(n.content) + seq!['"']
        + lit_pinned() + bool_lit(n.pinned) + seq!['}']
}

/// The encoded notes separated by commas.
pub open spec fn spec_body(ns: Seq<NoteView>) -> Seq<char>
    decreases ns.len(),
{
    if ns.len() == 0 {
        Seq::<char>::empty()
    } else if ns.len() == 1 {
        spec_encode_note(ns[0])
    } else {
        spec_body(ns.drop_last()) + seq![','] + spec_encode_note(ns.last())
    }
}

/// The whole document: the encoded notes between `[` and `]`.
pub open spec fn spec_encode_notes(ns: Seq<NoteView>) -> Seq<char> {
    seq!['['] + spec_body(ns) + seq![']']
}

/// The decimal digit character with value `d`.
fn digit_char_of(d: u32) -> (c: char)
    requires
        d <= 9,
    ensures
        c == digit_char(d as int),
{
    if d == 0 {
        '0'
    } else if d == 1 {
        '1'
    } else if d == 2 {
        '2'
    } else if d == 3 {
        '3'
    } else if d == 4 {
        '4'
    } else if d == 5 {
        '5'
    } else if d == 6 {
        '6'
    } else if d == 7 {
        '7'
    } else if d == 8 {
        '8'
    } else {
        '9'
    }
}

/// Appends the decimal digits of `n` to `out`.
fn push_dec(out: &mut Vec<char>, n: u32)
    ensures
        final(out)@ == old(out)@ + spec_dec(n as nat),
    decreases n,
{
    let ghost before = out@;
    if n < 10 {
        out.push(digit_char_of(n));
        proof {
            assert(out@ =~= before + spec_dec(n as nat));
        }
    } else {
        push_dec(out, n / 10);
        out.push(digit_char_of(n % 10));
        proof {
            assert(out@ =~= before + spec_dec(n as nat));
        }
    }
}

/// Appends the escaped form of `content` to `out`.
fn push_escaped(out: &mut Vec<char>, content: &Vec<char>)
    ensures
        final(out)@ == old(out)@ + spec_esc(content@),
{
    let ghost before = out@;
    let ghost cs = content@;
    let mut k: usize = 0;
    while k < content.len()
        invariant
            k <= content.len(),
            content@ == cs,
            out@ == before + spec_esc(cs.take(k as int)),
        decreases content.len() - k,
    {
        let c = content[k];
        proof {
            assert(cs.take(k as int + 1).drop_last() =~= cs.take(k as int));
            assert(cs.take(k as int + 1).last() == c);
            assert(spec_esc(cs.take(k as int + 1)) == spec_esc(cs.take(k as int)) + esc_char(c));
        }
        if c == '"' || c == '\\' {
            out.push('\\');
            out.push(c);
            proof {
                assert(out@ =~= before + spec_esc(cs.take(k as int + 1)));
            }
        } else {
            out.push(c);
            proof {
                assert(out@ =~= before + spec_esc(cs.take(k as int + 1)));
            }
        }
        k = k + 1;
    }
    proof {
        assert(cs.take(cs.len() as int) =~= cs);
    }
}

/// Appends the object opening and the id key to `out`.
fn push_lit_id(out: &mut Vec<char>)
    ensures
        final(out)@ == old(out)@ + lit_id(),
{
    let ghost before = out@;
    out.push('{');
    out.push('"');
    out.push('i');
    out.push('d');
    out.push('"');
    out.push(':');
    proof {
        assert(out@ =~= before + lit_id());
    }
}

/// Appends the content key to `out`.
fn push_lit_content(out: &mut Vec<char>)
    ensures
        final(out)@ == old(out)@ + lit_content(),
{
    let ghost before = out@;
    out.push(',');
    out.push('"');
    out.push('c');
    out.push('o');
    out.push('n');
    out.push('t');
    out.push('e');
    out.push('n');
    out.push('t');
    out.push('"');
    out.push(':');
    out.push('"');
    proof {
        assert(out@ =~= before + lit_content());
    }
}

/// Appends the content's closing quote and the pinned key to `out`.
fn push_lit_pinned(out: &mut Vec<char>)
    ensures
        final(out)@ == old(out)@ + seq!['"'] + lit_pinned(),
{
    let ghost before = out@;
    out.push('"');
    out.push(',');
    out.push('"');
    out.push('p');
    out.push('i');
    out.push('n');
    out.push('n');
    out.push('e');
    out.push('d');
    out.push('"');
    out.push(':');
    proof {
        assert(out@ =~= before + seq!['"'] + lit_pinned());
    }
}

/// Appends the characters of a pinned flag to `out`.
fn push_bool(out: &mut Vec<char>, b: bool)
    ensures
        final(out)@ == old(out)@ + bool_lit(b),
{
    let ghost before = out@;
    if b {
        out.push('t');
        out.push('r');
        out.push('u');
        out.push('e');
        proof {
            assert(out@ =~= before + bool_lit(b));
        }
    } else {
        out.push('f');
        out.push('a');
        out.push('l');
        out.push('s');
        out.push('e');
        proof {
            assert(out@ =~= before + bool_lit(b));
        }
    }
}

/// Appends one encoded note object to `out`.
#[verifier::rlimit(60)]
fn push_note(out: &mut Vec<char>, n: &Note)
    ensures
        final(out)@ == old(out)@ + spec_encode_note(n@),
{
    let ghost before = out@;
    push_lit_id(out);
    push_dec(out, n.id);
    push_lit_content(out);
    push_escaped(out, &n.content);
    push_lit_pinned(out);
    push_bool(out, n.pinned);
    out.push('}');
    proof {
        assert(out@ =~= before + spec_encode_note(n@));
    }
}

/// Unfolds one step of `spec_body` over a growing prefix.
proof fn lemma_body_take_step(ns: Seq<NoteView>, k: int)
    requires
        0 <= k < ns.len(),
    ensures
        spec_body(ns.take(k + 1)) == if k == 0 {
            spec_encode_note(ns[0])
        } else {
            spec_body(ns.take(k)) + seq![','] + spec_encode_note(ns[k])
        },
{
    let t = ns.take(k + 1);
    assert(t.drop_last() =~= ns.take(k));
    assert(t.last() == ns[k]);
    if k == 0 {
        assert(t[0] == ns[0]);
    }
}

/// Writes the whole collection as one document.
pub fn encode_notes(notes: &Vec<Note>) -> (r: Vec<char>)
    ensures
        r@ == spec_encode_notes(views(notes@)),
{
    let ghost vs = views(notes@);
    let mut r: Vec<char> = Vec::new();
    r.push('[');
    proof {
        assert(r@ =~= seq!['['] + spec_body(vs.take(0)));
        assert(spec_body(vs.take(0)) =~= Seq::<char>::empty());
    }
    let mut k: usize = 0;
    while k < notes.len()
        invariant
            k <= notes.len(),
            views(notes@) == vs,
            r@ == seq!['['] + spec_body(vs.take(k as int)),
        decreases notes.len() - k,
    {
        proof {
            lemma_body_take_step(vs, k as int);
        }
        if k > 0 {
            r.push(',');
        }
        push_note(&mut r, &notes[k]);
        proof {
            assert(views(notes@)[k as int] == notes@[k as int]@);
            assert(r@ =~= seq!['['] + spec_body(vs.take(k as int + 1)));
        }
        k = k + 1;
    }
    proof {
        assert(vs.take(vs.len() as int) =~= vs);
    }
    r.push(']');
    proof {
        assert(r@ =~= spec_encode_notes(vs));
    }
    r
}

} // verus!

verus! {

// ---------------------------------------------------------------------------
// Parsing: the documents that are read back
// ---------------------------------------------------------------------------
/// The literal `lit` stands in `s` at position `i`.
pub open spec fn lit_at(s: Seq<char>, i: int, lit: Seq<char>) -> bool {
    0 <= i && i + lit.len() <= s.len() && forall|k: int| 0 <= k < lit.len() ==> s[i + k] == lit[k]
}

/// The end of the run of digits that starts at `i`.
pub open spec fn spec_digit_run_end(s: Seq<char>, i: int) -> int
    decreases s.len() - i,
{
    if i < s.len() && is_digit(s[i]) {
        spec_digit_run_end(s, i + 1)
    } else {
        i
    }
}

/// The value of a string of digits, most significant first.
pub open spec fn spec_val(s: Seq<char>) -> int
    decreases s.len(),
{
    if s.len() == 0 {
        0
    } else {
        spec_val(s.drop_last()) * 10 + digit_val(s.last())
    }
}

/// Powers of ten.
pub open spec fn pow10(k: nat) -> int
    decreases k,
{
    if k == 0 {
        1
    } else {
        10 * pow10((k - 1) as nat)
    }
}

/// Reads an id at `i`: the longest run of digits, rejected when it is
/// empty, has a leading zero, or exceeds the id range.
pub open spec fn spec_parse_u32(s: Seq<char>, i: int) -> Option<(u32, int)> {
    let e = spec_digit_run_end(s, i);
    if e == i {
        None
    } else if s[i] == '0' && e > i + 1 {
        None
    } else if spec_val(s.subrange(i, e)) > u32::MAX {
        None
    } else {
        Some((spec_val(s.subrange(i, e)) as u32, e))
    }
}

/// Reads an escaped content text at `i`, up to and including the closing
/// quote; a backslash must be followed by `"` or `\`.
pub open spec fn spec_parse_string(s: Seq<char>, i: int) -> Option<(Seq<char>, int)>
    decreases s.len() - i,
{
    if i < 0 || i >= s.len() {
        None
    } else if s[i] == '"' {
        Some((Seq::<char>::empty(), i + 1))
    } else if s[i] == '\\' {
        if i + 1 < s.len() && (s[i + 1] == '"' || s[i + 1] == '\\') {
            match spec_parse_string(s, i + 2) {
                Some(r) => Some((seq![s[i + 1]] + r.0, r.1)),
                None => None,
            }
        } else {
            None
        }
    } else {
        match spec_parse_string(s, i + 1) {
            Some(r) => Some((seq![s[i]] + r.0, r.1)),
            None => None,
        }
    }
}

/// Reads one note object at `i`.
pub open spec fn spec_parse_note(s: Seq<char>, i: int) -> Option<(NoteView, int)> {
    if !lit_at(s, i, lit_id()) {
        None
    } else {
        match spec_parse_u32(s, i + 6) {
            None => None,
            Some((id, j)) => if !lit_at(s, j, lit_content()) {
                None
            } else {
                match spec_parse_string(s, j + 12) {
                    None => None,
                    Some((content, k)) => if !lit_at(s, k, lit_pinned()) {
                        None
                    } else {
                        if lit_at(s, k + 10, lit_true()) {
                            if lit_at(s, k + 14, seq!['}']) {
                                Some((NoteView { id, content, pinned: true }, k + 15))
                            } else {
                                None
                            }
                        } else if lit_at(s, k + 10, lit_false()) {
                            if lit_at(s, k + 15, seq!['}']) {
                                Some((NoteView { id, content, pinned: false }, k + 16))
                            } else {
                                None
                            }
                        } else {
                            None
                        }
                    },
                }
            },
        }
    }
}

/// Reads the notes after `[`: one object, then either `,` and more
/// objects or the closing `]`; gives the position after `]`.
pub open spec fn spec_parse_items(s: Seq<char>, i: int) -> Option<(Seq<NoteView>, int)>
    decreases s.len() - i,
{
    match spec_parse_note(s, i) {
        None => None,
        Some((nv, j)) => if j < s.len() && s[j] == ',' {
            if j + 1 <= i {
                None
            } else {
                match spec_parse_items(s, j + 1) {
                    Some(r) => Some((seq![nv] + r.0, r.1)),
                    None => None,
                }
            }
        } else if j < s.len() && s[j] == ']' {
            Some((seq![nv], j + 1))
        } else {
            None
        },
    }
}

/// Which whole documents are read back, and what they hold: `[]` is the
/// empty collection, any other accepted document is `[` followed by the
/// encoded notes and `]` with nothing after it. Anything else is refused.
pub open spec fn spec_parse_document(s: Seq<char>) -> Option<Seq<NoteView>> {
    if s.len() == 0 || s[0] != '[' {
        None
    } else if s.len() >= 2 && s[1] == ']' {
        if s.len() == 2 {
            Some(Seq::<NoteView>::empty())
        } else {
            None
        }
    } else {
        match spec_parse_items(s, 1) {
            Some((ns, j)) => if j == s.len() {
                Some(ns)
            } else {
                None
            },
            None => None,
        }
    }
}

} // verus!

verus! {

/// Whether `c` is a decimal digit.
fn is_digit_exec(c: char) -> (r: bool)
    ensures
        r == is_digit(c),
{
    c == '0' || c == '1' || c == '2' || c == '3' || c == '4' || c == '5' || c == '6' || c == '7'
        || c == '8' || c == '9'
}

/// The value of a decimal digit character.
fn digit_val_exec(c: char) -> (d: u32)
    requires
        is_digit(c),
    ensures
        d == digit_val(c),
        d <= 9,
{
    if c == '0' {
        0
    } else if c == '1' {
        1
    } else if c == '2' {
        2
    } else if c == '3' {
        3
    } else if c == '4' {
        4
    } else if c == '5' {
        5
    } else if c == '6' {
        6
    } else if c == '7' {
        7
    } else if c == '8' {
        8
    } else {
        9
    }
}

/// Whether the object opening and id key stand at `i`.
#[verifier::loop_isolation(false)]
fn match_lit_id(s: &Vec<char>, i: usize) -> (r: bool)
    requires
        i <= s.len(),
    ensures
        r == lit_at(s@, i as int, lit_id()),
{
    if s.len() - i < 6 {
        return false;
    }
    let r = s[i] == '{' && s[i + 1] == '"' && s[i + 2] == 'i' && s[i + 3] == 'd' && s[i + 4] == '"'
        && s[i + 5] == ':';
    proof {
        if r {
            assert forall|k: int| 0 <= k < 6 implies s@[i + k] == lit_id()[k] by {}
        } else {
            if lit_at(s@, i as int, lit_id()) {
                assert(s@[i as int + 0] == lit_id()[0]);
                assert(s@[i as int + 1] == lit_id()[1]);
                assert(s@[i as int + 2] == lit_id()[2]);
                assert(s@[i as int + 3] == lit_id()[3]);
                assert(s@[i as int + 4] == lit_id()[4]);
                assert(s@[i as int + 5] == lit_id()[5]);
            }
        }
    }
    r
}

/// Whether the content key stands at `i`.
fn match_lit_content(s: &Vec<char>, i: usize) -> (r: bool)
    requires
        i <= s.len(),
    ensures
        r == lit_at(s@, i as int, lit_content()),
{
    if s.len() - i < 12 {
        return false;
    }
    let r = s[i] == ',' && s[i + 1] == '"' && s[i + 2] == 'c' && s[i + 3] == 'o' && s[i + 4] == 'n'
        && s[i + 5] == 't' && s[i + 6] == 'e' && s[i + 7] == 'n' && s[i + 8] == 't' && s[i + 9]
        == '"' && s[i + 10] == ':' && s[i + 11] == '"';
    proof {
        if r {
            assert forall|k: int| 0 <= k < 12 implies s@[i + k] == lit_content()[k] by {}
        } else {
            if lit_at(s@, i as int, lit_content()) {
                assert(s@[i as int + 0] == lit_content()[0]);
                assert(s@[i as int + 1] == lit_content()[1]);
                assert(s@[i as int + 2] == lit_content()[2]);
                assert(s@[i as int + 3] == lit_content()[3]);
                assert(s@[i as int + 4] == lit_content()[4]);
                assert(s@[i as int + 5] == lit_content()[5]);
                assert(s@[i as int + 6] == lit_content()[6]);
                assert(s@[i as int + 7] == lit_content()[7]);
                assert(s@[i as int + 8] == lit_content()[8]);
                assert(s@[i as int + 9] == lit_content()[9]);
                assert(s@[i as int + 10] == lit_content()[10]);
                assert(s@[i as int + 11] == lit_content()[11]);
            }
        }
    }
    r
}

/// Whether the content's closing quote and the pinned key stand at `i`.
fn match_lit_pinned(s: &Vec<char>, i: usize) -> (r: bool)
    requires
        i <= s.len(),
    ensures
        r == lit_at(s@, i as int, lit_pinned()),
{
    if s.len() - i < 10 {
        return false;
    }
    let r = s[i] == ',' && s[i + 1] == '"' && s[i + 2] == 'p' && s[i + 3] == 'i' && s[i + 4] == 'n'
        && s[i + 5] == 'n' && s[i + 6] == 'e' && s[i + 7] == 'd' && s[i + 8] == '"' && s[i + 9]
        == ':';
    proof {
        if r {
            assert forall|k: int| 0 <= k < 10 implies s@[i + k] == lit_pinned()[k] by {}
        } else {
            if lit_at(s@, i as int, lit_pinned()) {
                assert(s@[i as int + 0] == lit_pinned()[0]);
                assert(s@[i as int + 1] == lit_pinned()[1]);
                assert(s@[i as int + 2] == lit_pinned()[2]);
                assert(s@[i as int + 3] == lit_pinned()[3]);
                assert(s@[i as int + 4] == lit_pinned()[4]);
                assert(s@[i as int + 5] == lit_pinned()[5]);
                assert(s@[i as int + 6] == lit_pinned()[6]);
                assert(s@[i as int + 7] == lit_pinned()[7]);
                assert(s@[i as int + 8] == lit_pinned()[8]);
                assert(s@[i as int + 9] == lit_pinned()[9]);
            }
        }
    }
    r
}

/// Whether `true` stands at `i`.
fn match_lit_true(s: &Vec<char>, i: usize) -> (r: bool)
    requires
        i <= s.len(),
    ensures
        r == lit_at(s@, i as int, lit_true()),
{
    if s.len() - i < 4 {
        return false;
    }
    let r = s[i] == 't' && s[i + 1] == 'r' && s[i + 2] == 'u' && s[i + 3] == 'e';
    proof {
        if r {
            assert forall|k: int| 0 <= k < 4 implies s@[i + k] == lit_true()[k] by {}
        } else {
            if lit_at(s@, i as int, lit_true()) {
                assert(s@[i as int + 0] == lit_true()[0]);
                assert(s@[i as int + 1] == lit_true()[1]);
                assert(s@[i as int + 2] == lit_true()[2]);
                assert(s@[i as int + 3] == lit_true()[3]);
            }
        }
    }
    r
}

/// Whether `false` stands at `i`.
fn match_lit_false(s: &Vec<char>, i: usize) -> (r: bool)
    requires
        i <= s.len(),
    ensures
        r == lit_at(s@, i as int, lit_false()),
{
    if s.len() - i < 5 {
        return false;
    }
    let r = s[i] == 'f' && s[i + 1] == 'a' && s[i + 2] == 'l' && s[i + 3] == 's' && s[i + 4] == 'e';
    proof {
        if r {
            assert forall|k: int| 0 <= k < 5 implies s@[i + k] == lit_false()[k] by {}
        } else {
            if lit_at(s@, i as int, lit_false()) {
                assert(s@[i as int + 0] == lit_false()[0]);
                assert(s@[i as int + 1] == lit_false()[1]);
                assert(s@[i as int + 2] == lit_false()[2]);
                assert(s@[i as int + 3] == lit_false()[3]);
                assert(s@[i as int + 4] == lit_false()[4]);
            }
        }
    }
    r
}

/// Whether the closing brace stands at `i`.
fn match_rbrace(s: &Vec<char>, i: usize) -> (r: bool)
    requires
        i <= s.len(),
    ensures
        r == lit_at(s@, i as int, seq!['}']),
{
    if s.len() - i < 1 {
        return false;
    }
    let r = s[i] == '}';
    proof {
        if r {
            assert forall|k: int| 0 <= k < 1 implies s@[i + k] == seq!['}'][k] by {}
        } else {
            if lit_at(s@, i as int, seq!['}']) {
                assert(s@[i as int + 0] == seq!['}'][0]);
            }
        }
    }
    r
}

} // verus!

verus! {

/// Bounds on the digit run: it lies between `i` and the end of `s`, holds
/// digits only, and stops at the end or at a non-digit.
pub proof fn lemma_run_end_bounds(s: Seq<char>, i: int)
    requires
        0 <= i <= s.len(),
    ensures
        i <= spec_digit_run_end(s, i) <= s.len(),
        forall|k: int| i <= k < spec_digit_run_end(s, i) ==> is_digit(s[k]),
        spec_digit_run_end(s, i) == s.len() || !is_digit(s[spec_digit_run_end(s, i)]),
    decreases s.len() - i,
{
    if i < s.len() && is_digit(s[i]) {
        lemma_run_end_bounds(s, i + 1);
    }
}

/// A string of digits has a non-negative value below ten to its length.
pub proof fn lemma_val_upper(s: Seq<char>)
    ensures
        0 <= spec_val(s) < pow10(s.len()),
    decreases s.len(),
{
    if s.len() == 0 {
    } else {
        lemma_val_upper(s.drop_last());
    }
}

/// A digit string without a leading zero is at least ten to one less
/// than its length.
pub proof fn lemma_val_lower(s: Seq<char>)
    requires
        s.len() >= 1,
        digit_val(s[0]) >= 1,
    ensures
        spec_val(s) >= pow10((s.len() - 1) as nat),
    decreases s.len(),
{
    if s.len() == 1 {
    } else {
        assert(s.drop_last()[0] == s[0]);
        lemma_val_lower(s.drop_last());
        lemma_val_upper(s.drop_last());
    }
}

/// Powers of ten are positive and grow with the exponent.
pub proof fn lemma_pow10_mono(a: nat, b: nat)
    requires
        a <= b,
    ensures
        1 <= pow10(a) <= pow10(b),
    decreases b,
{
    if b == 0 {
    } else if a == b {
        lemma_pow10_mono((a - 1) as nat, (b - 1) as nat);
    } else {
        lemma_pow10_mono(a, (b - 1) as nat);
    }
}

/// The value of ten to the tenth, above the id range.
pub proof fn lemma_pow10_ten()
    ensures
        pow10(10) == 10000000000,
{
    reveal_with_fuel(pow10, 12);
}

/// Reads an id at `i`; the result agrees with `spec_parse_u32`.
#[verifier::loop_isolation(false)]
fn parse_u32(s: &Vec<char>, i: usize) -> (r: Option<(u32, usize)>)
    requires
        i <= s.len(),
    ensures
        r is Some <==> spec_parse_u32(s@, i as int) is Some,
        r matches Some((n, j)) ==> spec_parse_u32(s@, i as int) == Some((n, j as int)) && i < j
            <= s.len(),
{
    proof {
        lemma_run_end_bounds(s@, i as int);
    }
    let ghost re = spec_digit_run_end(s@, i as int);
    let mut e: usize = i;
    while e < s.len() && is_digit_exec(s[e])
        invariant
            i <= e <= s.len(),
            forall|k: int| i <= k < e ==> is_digit(s@[k]),
            spec_digit_run_end(s@, e as int) == re,
        decreases s.len() - e,
    {
        e = e + 1;
    }
    proof {
        assert(spec_digit_run_end(s@, e as int) == e as int);
        assert(re == e as int);
    }
    if e == i {
        return None;
    }
    if s[i] == '0' && e > i + 1 {
        return None;
    }
    let ghost run = s@.subrange(i as int, e as int);
    if e - i > 10 {
        proof {
            assert(run[0] == s@[i as int]);
            assert(digit_val(run[0]) >= 1);
            lemma_val_lower(run);
            lemma_pow10_mono(10, (run.len() - 1) as nat);
            lemma_pow10_ten();
        }
        return None;
    }
    let mut acc: u64 = 0;
    let mut k: usize = i;
    while k < e
        invariant
            i <= k <= e,
            acc == spec_val(s@.subrange(i as int, k as int)),
            acc < pow10((k - i) as nat),
        decreases e - k,
    {
        let d = digit_val_exec(s[k]);
        proof {
            assert(s@.subrange(i as int, k as int + 1).drop_last() =~= s@.subrange(
                i as int,
                k as int,
            ));
            assert(s@.subrange(i as int, k as int + 1).last() == s@[k as int]);
            lemma_pow10_mono((k - i + 1) as nat, 10);
            lemma_pow10_ten();
        }
        acc = acc * 10 + (d as u64);
        k = k + 1;
    }
    proof {
        lemma_pow10_mono((e - i) as nat, 10);
        lemma_pow10_ten();
    }
    if acc > 0xFFFF_FFFF {
        None
    } else {
        Some((acc as u32, e))
    }
}

} // verus!

verus! {

/// Reads an escaped content text at `i`; the result agrees with
/// `spec_parse_string`.
fn parse_string(s: &Vec<char>, i: usize) -> (r: Option<(Vec<char>, usize)>)
    requires
        i <= s.len(),
    ensures
        r is Some <==> spec_parse_string(s@, i as int) is Some,
        r matches Some((cs, j)) ==> spec_parse_string(s@, i as int) == Some((cs@, j as int)) && i
            < j <= s.len(),
    decreases s.len() - i,
{
    if i >= s.len() {
        return None;
    }
    let c = s[i];
    if c == '"' {
        let empty: Vec<char> = Vec::new();
        proof {
            assert(empty@ =~= Seq::<char>::empty());
        }
        Some((empty, i + 1))
    } else if c == '\\' {
        if i + 1 < s.len() && (s[i + 1] == '"' || s[i + 1] == '\\') {
            let e = s[i + 1];
            match parse_string(s, i + 2) {
                Some((cs, j)) => {
                    let mut cs2 = cs;
                    cs2.insert(0, e);
                    proof {
                        assert(cs2@ =~= seq![s@[i as int + 1]] + spec_parse_string(
                            s@,
                            i as int + 2,
                        )->Some_0.0);
                    }
                    Some((cs2, j))
                },
                None => None,
            }
        } else {
            None
        }
    } else {
        match parse_string(s, i + 1) {
            Some((cs, j)) => {
                let mut cs2 = cs;
                cs2.insert(0, c);
                proof {
                    assert(cs2@ =~= seq![s@[i as int]] + spec_parse_string(
                        s@,
                        i as int + 1,
                    )->Some_0.0);
                }
                Some((cs2, j))
            },
            None => None,
        }
    }
}

/// Reads one note object at `i`; the result agrees with
/// `spec_parse_note`.
fn parse_note(s: &Vec<char>, i: usize) -> (r: Option<(Note, usize)>)
    requires
        i <= s.len(),
    ensures
        r is Some <==> spec_parse_note(s@, i as int) is Some,
        r matches Some((n, j)) ==> spec_parse_note(s@, i as int) == Some((n@, j as int)) && i < j
            <= s.len(),
{
    if !match_lit_id(s, i) {
        return None;
    }
    let (id, j) = match parse_u32(s, i + 6) {
        Some(p) => p,
        None => {
            return None;
        },
    };
    if !match_lit_content(s, j) {
        return None;
    }
    let (content, k) = match parse_string(s, j + 12) {
        Some(p) => p,
        None => {
            return None;
        },
    };
    if !match_lit_pinned(s, k) {
        return None;
    }
    if match_lit_true(s, k + 10) {
        if match_rbrace(s, k + 14) {
            let n = Note { id, content, pinned: true };
            Some((n, k + 15))
        } else {
            None
        }
    } else if match_lit_false(s, k + 10) {
        if match_rbrace(s, k + 15) {
            let n = Note { id, content, pinned: false };
            Some((n, k + 16))
        } else {
            None
        }
    } else {
        None
    }
}

/// Putting a note in front of a vector puts its model in front of the
/// vector's models.
proof fn lemma_views_insert_front(v: Seq<Note>, n: Note)
    ensures
        views(v.insert(0, n)) == seq![n@] + views(v),
{
    assert forall|x: int| 0 <= x < v.len() + 1 implies views(v.insert(0, n))[x] == (seq![n@]
        + views(v))[x] by {
        if x == 0 {
            assert(v.insert(0, n)[0] == n);
        } else {
            assert(v.insert(0, n)[x] == v[x - 1]);
        }
    }
    assert(views(v.insert(0, n)) =~= seq![n@] + views(v));
}

/// Reads the items after `[`; the result agrees with `spec_parse_items`.
fn parse_items(s: &Vec<char>, i: usize) -> (r: Option<(Vec<Note>, usize)>)
    requires
        i <= s.len(),
    ensures
        r is Some <==> spec_parse_items(s@, i as int) is Some,
        r matches Some((v, j)) ==> spec_parse_items(s@, i as int) == Some((views(v@), j as int))
            && i < j <= s.len(),
    decreases s.len() - i,
{
    let (note, j) = match parse_note(s, i) {
        Some(p) => p,
        None => {
            return None;
        },
    };
    if j < s.len() && s[j] == ',' {
        match parse_items(s, j + 1) {
            Some((tail, k)) => {
                let ghost tail_views = views(tail@);
                let mut v = tail;
                proof {
                    lemma_views_insert_front(v@, note);
                }
                v.insert(0, note);
                proof {
                    assert(views(v@) == seq![note@] + tail_views);
                }
                Some((v, k))
            },
            None => None,
        }
    } else if j < s.len() && s[j] == ']' {
        let mut v: Vec<Note> = Vec::new();
        proof {
            lemma_views_insert_front(v@, note);
            assert(v@.insert(0, note) =~= v@.push(note));
        }
        v.push(note);
        proof {
            assert(views(v@) =~= seq![note@]);
        }
        Some((v, j + 1))
    } else {
        None
    }
}

/// Reads a whole document back into a collection; the result agrees with
/// `spec_parse_document`, so a document that is not exactly an encoded
/// collection is refused.
pub fn parse_notes(doc: &Vec<char>) -> (r: Option<Vec<Note>>)
    ensures
        r is Some <==> spec_parse_document(doc@) is Some,
        r matches Some(v) ==> spec_parse_document(doc@) == Some(views(v@)),
{
    if doc.len() == 0 {
        return None;
    }
    if doc[0] != '[' {
        return None;
    }
    if doc.len() >= 2 && doc[1] == ']' {
        if doc.len() == 2 {
            let v: Vec<Note> = Vec::new();
            proof {
                assert(views(v@) =~= Seq::<NoteView>::empty());
            }
            return Some(v);
        } else {
            return None;
        }
    }
    match parse_items(doc, 1) {
        Some((v, j)) => {
            if j == doc.len() {
                Some(v)
            } else {
                None
            }
        },
        None => None,
    }
}

} // verus!

verus! {

// ---------------------------------------------------------------------------
// Round trip: reading an encoded document gives back the collection
// ---------------------------------------------------------------------------
/// Escaping distributes over concatenation.
proof fn lemma_esc_append(a: Seq<char>, b: Seq<char>)
    ensures
        spec_esc(a + b) == spec_esc(a) + spec_esc(b),
    decreases b.len(),
{
    if b.len() == 0 {
        assert(a + b =~= a);
        assert(spec_esc(a) + spec_esc(b) =~= spec_esc(a));
    } else {
        lemma_esc_append(a, b.drop_last());
        assert((a + b).drop_last() =~= a + b.drop_last());
        assert((a + b).last() == b.last());
        assert(spec_esc(a) + (spec_esc(b.drop_last()) + esc_char(b.last())) =~= (spec_esc(a)
            + spec_esc(b.drop_last())) + esc_char(b.last()));
    }
}

/// Escaping peels its first character.
proof fn lemma_esc_head(content: Seq<char>)
    requires
        content.len() >= 1,
    ensures
        spec_esc(content) == esc_char(content[0]) + spec_esc(content.drop_first()),
{
    assert(content =~= seq![content[0]] + content.drop_first());
    lemma_esc_append(seq![content[0]], content.drop_first());
    assert(spec_esc(seq![content[0]]) == spec_esc(seq![content[0]].drop_last()) + esc_char(
        content[0],
    ));
    assert(seq![content[0]].drop_last() =~= Seq::<char>::empty());
    assert(spec_esc(Seq::<char>::empty()) + esc_char(content[0]) =~= esc_char(content[0]));
}

/// Peels a known prefix off a suffix of `s`.
proof fn lemma_skip_shift(s: Seq<char>, p: int, a: Seq<char>, r: Seq<char>)
    requires
        0 <= p <= s.len(),
        s.skip(p) == a + r,
    ensures
        p + a.len() <= s.len(),
        s.skip(p + a.len()) == r,
{
    assert(s.skip(p).len() == s.len() - p);
    let q = p + a.len() as int;
    assert forall|k: int| 0 <= k < s.len() - q implies s.skip(q)[k] == r[k] by {
        assert(s.skip(q)[k] == s[q + k]);
        assert(s.skip(p)[a.len() + k] == s[q + k]);
        assert((a + r)[a.len() + k] == r[k]);
    }
    assert(s.skip(q) =~= r);
}

/// A literal at the head of a suffix of `s` stands in `s` there.
proof fn lemma_lit_from_skip(s: Seq<char>, i: int, lit: Seq<char>, r: Seq<char>)
    requires
        0 <= i <= s.len(),
        s.skip(i) == lit + r,
    ensures
        lit_at(s, i, lit),
        i + lit.len() <= s.len(),
{
    assert(s.skip(i).len() == s.len() - i);
    assert forall|k: int| 0 <= k < lit.len() implies s[i + k] == lit[k] by {
        assert(s.skip(i)[k] == s[i + k]);
        assert((lit + r)[k] == lit[k]);
    }
}

/// Reading the escaped form of a text followed by a closing quote gives
/// back the text and stops after the quote.
proof fn lemma_parse_string_of_esc(s: Seq<char>, i: int, content: Seq<char>, rest: Seq<char>)
    requires
        0 <= i <= s.len(),
        s.skip(i) == spec_esc(content) + seq!['"'] + rest,
    ensures
        spec_parse_string(s, i) == Some((content, i + spec_esc(content).len() + 1)),
    decreases content.len(),
{
    assert(s.skip(i).len() == s.len() - i);
    if content.len() == 0 {
        assert(spec_esc(content) =~= Seq::<char>::empty());
        assert(s.skip(i)[0] == s[i]);
        assert((spec_esc(content) + seq!['"'] + rest)[0] == '"');
        assert(s[i] == '"');
        assert(i < s.len());
    } else {
        let c0 = content[0];
        let tail = content.drop_first();
        lemma_esc_head(content);
        assert(s.skip(i) =~= esc_char(c0) + (spec_esc(tail) + seq!['"'] + rest));
        if c0 == '"' || c0 == '\\' {
            assert(esc_char(c0) == seq!['\\', c0]);
            assert(s.skip(i)[0] == s[i]);
            assert(s.skip(i)[1] == s[i + 1]);
            assert(s[i] == '\\');
            assert(s[i + 1] == c0);
            lemma_skip_shift(s, i, esc_char(c0), spec_esc(tail) + seq!['"'] + rest);
            assert(i + 2 <= s.len());
            assert(i + 1 < s.len());
            lemma_parse_string_of_esc(s, i + 2, tail, rest);
            assert(seq![s[i + 1]] + tail =~= content);
            assert(spec_esc(content).len() == 2 + spec_esc(tail).len());
        } else {
            assert(esc_char(c0) == seq![c0]);
            assert(s.skip(i)[0] == s[i]);
            assert(s[i] == c0);
            assert(i < s.len());
            lemma_skip_shift(s, i, esc_char(c0), spec_esc(tail) + seq!['"'] + rest);
            lemma_parse_string_of_esc(s, i + 1, tail, rest);
            assert(seq![s[i]] + tail =~= content);
            assert(spec_esc(content).len() == 1 + spec_esc(tail).len());
        }
    }
}

/// The digit run over a known stretch of digits ends where they end.
proof fn lemma_run_end_digits(s: Seq<char>, i: int, e: int)
    requires
        0 <= i <= e <= s.len(),
        forall|k: int| i <= k < e ==> is_digit(s[k]),
        e == s.len() || !is_digit(s[e]),
    ensures
        spec_digit_run_end(s, i) == e,
    decreases e - i,
{
    if i < e {
        lemma_run_end_digits(s, i + 1, e);
    }
}

/// The digits of a number are digits; the first is zero only for zero.
proof fn lemma_dec_digits(n: nat)
    ensures
        spec_dec(n).len() >= 1,
        forall|k: int| 0 <= k < spec_dec(n).len() ==> is_digit(#[trigger] spec_dec(n)[k]),
        n >= 1 ==> digit_val(spec_dec(n)[0]) >= 1,
    decreases n,
{
    if n >= 10 {
        lemma_dec_digits(n / 10);
        assert(spec_dec(n)[0] == spec_dec(n / 10)[0]);
        assert forall|k: int| 0 <= k < spec_dec(n).len() implies is_digit(
            #[trigger] spec_dec(n)[k],
        ) by {
            if k < spec_dec(n / 10).len() {
                assert(spec_dec(n)[k] == spec_dec(n / 10)[k]);
            } else {
                assert(spec_dec(n)[k] == digit_char((n % 10) as int));
            }
        }
    }
}

/// The value of a number's digits is the number.
proof fn lemma_dec_val(n: nat)
    ensures
        spec_val(spec_dec(n)) == n,
    decreases n,
{
    if n < 10 {
        assert(spec_dec(n).drop_last() =~= Seq::<char>::empty());
        assert(spec_val(Seq::<char>::empty()) == 0);
        assert(spec_dec(n).last() == digit_char(n as int));
        assert(digit_val(digit_char(n as int)) == n);
    } else {
        lemma_dec_val(n / 10);
        assert(spec_dec(n).drop_last() =~= spec_dec(n / 10));
        assert(spec_dec(n).last() == digit_char((n % 10) as int));
        assert(digit_val(digit_char((n % 10) as int)) == n % 10);
    }
}

/// Reading the digits of an id followed by a non-digit gives back the id
/// and stops after the digits.
proof fn lemma_parse_u32_of_dec(s: Seq<char>, i: int, m: u32, rest: Seq<char>)
    requires
        0 <= i <= s.len(),
        s.skip(i) == spec_dec(m as nat) + rest,
        rest.len() == 0 || !is_digit(rest[0]),
    ensures
        spec_parse_u32(s, i) == Some((m, i + spec_dec(m as nat).len())),
{
    let d = spec_dec(m as nat);
    lemma_dec_digits(m as nat);
    lemma_lit_from_skip(s, i, d, rest);
    let e = i + d.len() as int;
    assert(s.skip(i).len() == s.len() - i);
    assert forall|k: int| i <= k < e implies is_digit(s[k]) by {
        assert(s[k] == d[k - i]);
    }
    if e < s.len() {
        assert(s.skip(i)[d.len() as int] == s[e]);
        assert((d + rest)[d.len() as int] == rest[0]);
        assert(!is_digit(s[e]));
    }
    lemma_run_end_digits(s, i, e);
    assert(s.subrange(i, e) =~= d) by {
        assert forall|k: int| 0 <= k < d.len() implies s.subrange(i, e)[k] == d[k] by {
            assert(s.subrange(i, e)[k] == s[i + k]);
        }
    }
    lemma_dec_val(m as nat);
    assert(s[i] == d[0]);
    if s[i] == '0' {
        assert(digit_val(d[0]) == 0);
        assert(m == 0);
        assert(d.len() == 1);
    }
}

} // verus!

verus! {

/// Reading one encoded note object gives back the note and stops after
/// its closing brace.
#[verifier::rlimit(80)]
proof fn lemma_parse_note_of_enc(s: Seq<char>, i: int, nv: NoteView, rest: Seq<char>)
    requires
        0 <= i <= s.len(),
        s.skip(i) == spec_encode_note(nv) + rest,
    ensures
        spec_parse_note(s, i) == Some((nv, i + spec_encode_note(nv).len())),
        spec_encode_note(nv).len() >= 31,
{
    let decs = spec_dec(nv.id as nat);
    let escs = spec_esc(nv.content);
    let bools = bool_lit(nv.pinned);
    lemma_dec_digits(nv.id as nat);
    let r1 = decs + (lit_content() + (escs + (seq!['"'] + (lit_pinned() + (bools + (seq!['}']
        + rest))))));
    assert(s.skip(i) =~= lit_id() + r1);
    lemma_lit_from_skip(s, i, lit_id(), r1);
    lemma_skip_shift(s, i, lit_id(), r1);
    let p1 = i + 6;
    let r2 = lit_content() + (escs + (seq!['"'] + (lit_pinned() + (bools + (seq!['}'] + rest)))));
    assert((lit_content() + (escs + (seq!['"'] + (lit_pinned() + (bools + (seq!['}'] + rest))))))[0]
        == ',');
    lemma_parse_u32_of_dec(s, p1, nv.id, r2);
    lemma_skip_shift(s, p1, decs, r2);
    let p2 = p1 + decs.len() as int;
    let r3 = escs + (seq!['"'] + (lit_pinned() + (bools + (seq!['}'] + rest))));
    lemma_lit_from_skip(s, p2, lit_content(), r3);
    lemma_skip_shift(s, p2, lit_content(), r3);
    let p3 = p2 + 12;
    assert(s.skip(p3) =~= escs + seq!['"'] + (lit_pinned() + (bools + (seq!['}'] + rest))));
    lemma_parse_string_of_esc(s, p3, nv.content, lit_pinned() + (bools + (seq!['}'] + rest)));
    assert(s.skip(p3) =~= (escs + seq!['"']) + (lit_pinned() + (bools + (seq!['}'] + rest))));
    lemma_skip_shift(s, p3, escs + seq!['"'], lit_pinned() + (bools + (seq!['}'] + rest)));
    let p4 = p3 + escs.len() as int + 1;
    let r5 = bools + (seq!['}'] + rest);
    lemma_lit_from_skip(s, p4, lit_pinned(), r5);
    lemma_skip_shift(s, p4, lit_pinned(), r5);
    let p5 = p4 + 10;
    let r6 = seq!['}'] + rest;
    lemma_lit_from_skip(s, p5, bools, r6);
    lemma_skip_shift(s, p5, bools, r6);
    let p6 = p5 + bools.len() as int;
    lemma_lit_from_skip(s, p6, seq!['}'], rest);
    if nv.pinned {
        assert(lit_at(s, p5, lit_true()));
        assert(spec_parse_note(s, i) == Some(
            (NoteView { id: nv.id, content: nv.content, pinned: true }, p5 + 5),
        ));
        assert(NoteView { id: nv.id, content: nv.content, pinned: true } == nv);
    } else {
        assert(lit_at(s, p5, lit_false()));
        assert(s[p5] == bools[0]);
        assert(bools[0] == 'f');
        assert(!lit_at(s, p5, lit_true()));
        assert(spec_parse_note(s, i) == Some(
            (NoteView { id: nv.id, content: nv.content, pinned: false }, p5 + 6),
        ));
        assert(NoteView { id: nv.id, content: nv.content, pinned: false } == nv);
    }
    assert(spec_encode_note(nv).len() == 6 + decs.len() + 12 + escs.len() + 1 + 10 + bools.len()
        + 1);
}

/// The body of a non-empty collection peels its first encoded note.
proof fn lemma_body_head(ns: Seq<NoteView>)
    requires
        ns.len() >= 1,
    ensures
        spec_body(ns) == spec_encode_note(ns[0]) + (if ns.len() == 1 {
            Seq::<char>::empty()
        } else {
            seq![','] + spec_body(ns.drop_first())
        }),
    decreases ns.len(),
{
    if ns.len() == 1 {
        assert(spec_body(ns) =~= spec_encode_note(ns[0]) + Seq::<char>::empty());
    } else if ns.len() == 2 {
        assert(ns.drop_last()[0] == ns[0]);
        assert(ns.drop_last().len() == 1);
        assert(ns.drop_first().len() == 1);
        assert(ns.drop_first()[0] == ns[1]);
        assert(ns.last() == ns[1]);
        assert(spec_body(ns) == spec_body(ns.drop_last()) + seq![','] + spec_encode_note(ns[1]));
        assert(spec_body(ns.drop_last()) == spec_encode_note(ns[0]));
        assert(spec_body(ns.drop_first()) == spec_encode_note(ns[1]));
        assert(spec_body(ns) =~= spec_encode_note(ns[0]) + (seq![','] + spec_body(
            ns.drop_first(),
        )));
    } else {
        lemma_body_head(ns.drop_last());
        assert(ns.drop_last()[0] == ns[0]);
        let mid = ns.drop_last().drop_first();
        assert(ns.drop_first().drop_last() =~= mid);
        assert(ns.drop_first().len() == ns.len() - 1);
        assert(ns.drop_first().last() == ns.last());
        assert(spec_body(ns.drop_first()) == spec_body(mid) + seq![','] + spec_encode_note(
            ns.last(),
        ));
        assert(spec_body(ns) == spec_body(ns.drop_last()) + seq![','] + spec_encode_note(
            ns.last(),
        ));
        assert(spec_body(ns.drop_last()) == spec_encode_note(ns[0]) + (seq![','] + spec_body(
            mid,
        )));
        assert(spec_body(ns) =~= spec_encode_note(ns[0]) + (seq![','] + spec_body(
            ns.drop_first(),
        )));
    }
}

/// Reading the encoded body of a non-empty collection followed by the
/// closing bracket gives back the collection and stops after the bracket.
proof fn lemma_parse_items_of_body(s: Seq<char>, i: int, ns: Seq<NoteView>, rest: Seq<char>)
    requires
        0 <= i <= s.len(),
        ns.len() >= 1,
        s.skip(i) == spec_body(ns) + seq![']'] + rest,
    ensures
        spec_parse_items(s, i) == Some((ns, i + spec_body(ns).len() + 1)),
    decreases ns.len(),
{
    lemma_body_head(ns);
    assert(s.skip(i).len() == s.len() - i);
    if ns.len() == 1 {
        assert(s.skip(i) =~= spec_encode_note(ns[0]) + (seq![']'] + rest));
        lemma_parse_note_of_enc(s, i, ns[0], seq![']'] + rest);
        lemma_skip_shift(s, i, spec_encode_note(ns[0]), seq![']'] + rest);
        let j = i + spec_encode_note(ns[0]).len() as int;
        assert(s.skip(j)[0] == s[j]);
        assert((seq![']'] + rest)[0] == ']');
        assert(j < s.len());
        assert(s[j] != ',') by {
            assert(s[j] == ']');
        }
        assert(spec_parse_items(s, i) == Some((seq![ns[0]], j + 1)));
        assert(seq![ns[0]] =~= ns);
        assert(spec_body(ns).len() == spec_encode_note(ns[0]).len());
    } else {
        let tail = ns.drop_first();
        assert(s.skip(i) =~= spec_encode_note(ns[0]) + (seq![','] + (spec_body(tail) + seq![']']
            + rest)));
        lemma_parse_note_of_enc(
            s,
            i,
            ns[0],
            seq![','] + (spec_body(tail) + seq![']'] + rest),
        );
        lemma_skip_shift(
            s,
            i,
            spec_encode_note(ns[0]),
            seq![','] + (spec_body(tail) + seq![']'] + rest),
        );
        let j = i + spec_encode_note(ns[0]).len() as int;
        assert(s.skip(j)[0] == s[j]);
        assert((seq![','] + (spec_body(tail) + seq![']'] + rest))[0] == ',');
        assert(j < s.len());
        assert(s[j] == ',');
        lemma_skip_shift(s, j, seq![','], spec_body(tail) + seq![']'] + rest);
        lemma_parse_items_of_body(s, j + 1, tail, rest);
        assert(spec_parse_items(s, i) == Some((seq![ns[0]] + tail, j + 1 + spec_body(tail).len()
            + 1)));
        assert(seq![ns[0]] + tail =~= ns);
        assert(spec_body(ns).len() == spec_encode_note(ns[0]).len() + 1 + spec_body(tail).len());
    }
}

/// Reading back what a collection encodes gives exactly that collection.
pub proof fn lemma_document_round_trip(ns: Seq<NoteView>)
    ensures
        spec_parse_document(spec_encode_notes(ns)) == Some(ns),
{
    let s = spec_encode_notes(ns);
    assert(s.len() == 2 + spec_body(ns).len());
    assert(s[0] == '[');
    if ns.len() == 0 {
        assert(spec_body(ns) =~= Seq::<char>::empty());
        assert(s.len() == 2);
        assert(s[1] == ']');
        assert(spec_parse_document(s) == Some(Seq::<NoteView>::empty()));
        assert(Seq::<NoteView>::empty() =~= ns);
    } else {
        lemma_body_head(ns);
        lemma_dec_digits(ns[0].id as nat);
        assert(spec_body(ns).len() >= 31) by {
            assert(spec_encode_note(ns[0]).len() == 6 + spec_dec(ns[0].id as nat).len() + 12
                + spec_esc(ns[0].content).len() + 1 + 10 + bool_lit(ns[0].pinned).len() + 1);
        }
        assert(s[1] == spec_body(ns)[0]);
        assert(spec_body(ns)[0] == spec_encode_note(ns[0])[0]);
        assert(spec_encode_note(ns[0])[0] == lit_id()[0]);
        assert(s[1] != ']');
        assert(s.skip(1) =~= spec_body(ns) + seq![']'] + Seq::<char>::empty());
        lemma_parse_items_of_body(s, 1, ns, Seq::<char>::empty());
        assert(1 + spec_body(ns).len() + 1 == s.len());
    }
}

} // verus!

verus! {

// ---------------------------------------------------------------------------
// Soundness: an accepted document is the encoding of what it yields
// ---------------------------------------------------------------------------
/// What a successful string read consumed: the escaped form of its result
/// followed by the closing quote.
proof fn lemma_parse_string_sound(s: Seq<char>, i: int)
    requires
        0 <= i <= s.len(),
        spec_parse_string(s, i) is Some,
    ensures
        i < spec_parse_string(s, i)->Some_0.1 <= s.len(),
        s.subrange(i, spec_parse_string(s, i)->Some_0.1) == spec_esc(
            spec_parse_string(s, i)->Some_0.0,
        ) + seq!['"'],
    decreases s.len() - i,
{
    let r = spec_parse_string(s, i)->Some_0;
    if s[i] == '"' {
        assert(s.subrange(i, i + 1) =~= seq![s[i]]);
        assert(spec_esc(r.0) + seq!['"'] =~= seq!['"']);
    } else if s[i] == '\\' {
        lemma_parse_string_sound(s, i + 2);
        let inner = spec_parse_string(s, i + 2)->Some_0;
        assert(r.0 == seq![s[i + 1]] + inner.0);
        lemma_esc_head(r.0);
        assert(r.0[0] == s[i + 1]);
        assert(r.0.drop_first() =~= inner.0);
        assert(esc_char(s[i + 1]) == seq!['\\', s[i + 1]]);
        assert(s.subrange(i, r.1) =~= seq![s[i], s[i + 1]] + s.subrange(i + 2, r.1));
        assert(spec_esc(r.0) + seq!['"'] =~= seq![s[i], s[i + 1]] + (spec_esc(inner.0)
            + seq!['"']));
        assert(s.subrange(i, r.1) =~= spec_esc(r.0) + seq!['"']);
    } else {
        lemma_parse_string_sound(s, i + 1);
        let inner = spec_parse_string(s, i + 1)->Some_0;
        assert(r.0 == seq![s[i]] + inner.0);
        lemma_esc_head(r.0);
        assert(r.0[0] == s[i]);
        assert(r.0.drop_first() =~= inner.0);
        assert(esc_char(s[i]) == seq![s[i]]);
        assert(s.subrange(i, r.1) =~= seq![s[i]] + s.subrange(i + 1, r.1));
        assert(spec_esc(r.0) + seq!['"'] =~= seq![s[i]] + (spec_esc(inner.0) + seq!['"']));
        assert(s.subrange(i, r.1) =~= spec_esc(r.0) + seq!['"']);
    }
}

/// A digit string without a leading zero is the decimal form of its
/// value.
proof fn lemma_dec_of_val(d: Seq<char>)
    requires
        d.len() >= 1,
        forall|k: int| 0 <= k < d.len() ==> is_digit(#[trigger] d[k]),
        d[0] == '0' ==> d.len() == 1,
    ensures
        spec_val(d) >= 0,
        spec_dec(spec_val(d) as nat) == d,
    decreases d.len(),
{
    lemma_val_upper(d);
    if d.len() == 1 {
        assert(d.drop_last() =~= Seq::<char>::empty());
        assert(spec_val(Seq::<char>::empty()) == 0);
        assert(d.last() == d[0]);
        assert(spec_val(d) == digit_val(d[0]));
        assert(digit_char(digit_val(d[0])) == d[0]);
        assert(spec_dec(spec_val(d) as nat) =~= d);
    } else {
        let dp = d.drop_last();
        assert(dp[0] == d[0]);
        assert forall|k: int| 0 <= k < dp.len() implies is_digit(#[trigger] dp[k]) by {
            assert(dp[k] == d[k]);
        }
        lemma_dec_of_val(dp);
        assert(digit_val(dp[0]) >= 1);
        lemma_val_lower(dp);
        lemma_pow10_mono(0, (dp.len() - 1) as nat);
        assert(spec_val(dp) >= 1);
        let v = spec_val(d);
        assert(v == spec_val(dp) * 10 + digit_val(d.last()));
        assert(v >= 10);
        assert(v / 10 == spec_val(dp));
        assert(v % 10 == digit_val(d.last()));
        assert(digit_char(digit_val(d.last())) == d.last());
        assert(spec_dec(v as nat) == spec_dec(spec_val(dp) as nat).push(d.last()));
        assert(spec_dec(v as nat) =~= d);
    }
}

/// What a successful id read consumed: the decimal form of its result.
proof fn lemma_parse_u32_sound(s: Seq<char>, i: int)
    requires
        0 <= i <= s.len(),
        spec_parse_u32(s, i) is Some,
    ensures
        i < spec_parse_u32(s, i)->Some_0.1 <= s.len(),
        s.subrange(i, spec_parse_u32(s, i)->Some_0.1) == spec_dec(
            spec_parse_u32(s, i)->Some_0.0 as nat,
        ),
{
    lemma_run_end_bounds(s, i);
    let e = spec_digit_run_end(s, i);
    let d = s.subrange(i, e);
    assert forall|k: int| 0 <= k < d.len() implies is_digit(#[trigger] d[k]) by {
        assert(d[k] == s[i + k]);
    }
    assert(d[0] == s[i]);
    lemma_dec_of_val(d);
}

} // verus!

verus! {

/// What a successful note read consumed: the encoding of its result.
#[verifier::rlimit(80)]
proof fn lemma_parse_note_sound(s: Seq<char>, i: int)
    requires
        0 <= i <= s.len(),
        spec_parse_note(s, i) is Some,
    ensures
        i < spec_parse_note(s, i)->Some_0.1 <= s.len(),
        s.subrange(i, spec_parse_note(s, i)->Some_0.1) == spec_encode_note(
            spec_parse_note(s, i)->Some_0.0,
        ),
{
    let r = spec_parse_note(s, i)->Some_0;
    let nv = r.0;
    let fin = r.1;
    assert(lit_at(s, i, lit_id()));
    lemma_parse_u32_sound(s, i + 6);
    let j1 = spec_parse_u32(s, i + 6)->Some_0.1;
    let decs = spec_dec(nv.id as nat);
    assert(s.subrange(i + 6, j1) == decs);
    assert(lit_at(s, j1, lit_content()));
    lemma_parse_string_sound(s, j1 + 12);
    let k0 = spec_parse_string(s, j1 + 12)->Some_0.1;
    let escs = spec_esc(nv.content);
    assert(s.subrange(j1 + 12, k0) == escs + seq!['"']);
    assert(lit_at(s, k0, lit_pinned()));
    let bools = bool_lit(nv.pinned);
    if nv.pinned {
        assert(lit_at(s, k0 + 10, lit_true()));
        assert(lit_at(s, k0 + 14, seq!['}']));
        assert(s[k0 + 14 + 0] == seq!['}'][0]);
        assert(fin == k0 + 15);
    } else {
        assert(lit_at(s, k0 + 10, lit_false()));
        assert(lit_at(s, k0 + 15, seq!['}']));
        assert(s[k0 + 15 + 0] == seq!['}'][0]);
        assert(fin == k0 + 16);
    }
    assert(s[fin - 1] == '}');
    let e1 = lit_id() + decs;
    let e2 = e1 + lit_content();
    let e3 = e2 + (escs + seq!['"']);
    let e4 = e3 + lit_pinned();
    let e5 = e4 + bools;
    assert forall|x: int| 0 <= x < fin - i implies s.subrange(i, fin)[x] == (e5 + seq!['}'])[x] by {
        assert(s.subrange(i, fin)[x] == s[i + x]);
        if x < 6 {
            assert(s[i + x] == lit_id()[x]);
        } else if x < 6 + decs.len() {
            assert(s.subrange(i + 6, j1)[x - 6] == s[i + x]);
        } else if x < 6 + decs.len() + 12 {
            assert(s[j1 + (x - 6 - decs.len())] == lit_content()[x - 6 - decs.len()]);
        } else if x < e3.len() {
            assert(s.subrange(j1 + 12, k0)[x - e2.len()] == s[i + x]);
        } else if x < e4.len() {
            assert(s[k0 + (x - e3.len())] == lit_pinned()[x - e3.len()]);
        } else if x < e5.len() {
            assert(s[k0 + 10 + (x - e4.len())] == bools[x - e4.len()]);
        } else {
            assert(i + x == fin - 1);
            assert(s[i + x] == '}');
        }
    }
    assert(s.subrange(i, fin) =~= e5 + seq!['}']);
    assert(spec_encode_note(nv) == e5 + seq!['}']);
}

/// What a successful items read consumed: the body of its result and the
/// closing bracket.
proof fn lemma_parse_items_sound(s: Seq<char>, i: int)
    requires
        0 <= i <= s.len(),
        spec_parse_items(s, i) is Some,
    ensures
        i < spec_parse_items(s, i)->Some_0.1 <= s.len(),
        spec_parse_items(s, i)->Some_0.0.len() >= 1,
        s.subrange(i, spec_parse_items(s, i)->Some_0.1) == spec_body(
            spec_parse_items(s, i)->Some_0.0,
        ) + seq![']'],
    decreases s.len() - i,
{
    let r = spec_parse_items(s, i)->Some_0;
    lemma_parse_note_sound(s, i);
    let first = spec_parse_note(s, i)->Some_0;
    let j = first.1;
    if j < s.len() && s[j] == ',' {
        lemma_parse_items_sound(s, j + 1);
        let inner = spec_parse_items(s, j + 1)->Some_0;
        assert(r.0 == seq![first.0] + inner.0);
        assert(r.1 == inner.1);
        lemma_body_head(r.0);
        assert(r.0[0] == first.0);
        assert(r.0.drop_first() =~= inner.0);
        assert(r.0.len() >= 2);
        assert(spec_body(r.0) == spec_encode_note(first.0) + (seq![','] + spec_body(inner.0)));
        let enc = spec_encode_note(first.0);
        let tail_chars = spec_body(inner.0) + seq![']'];
        lemma_subrange_glue(s, i, j, r.1);
        lemma_subrange_glue(s, j, j + 1, r.1);
        assert(s.subrange(j, j + 1) =~= seq![s[j]]);
        assert(s.subrange(i, r.1) == enc + (seq![s[j]] + tail_chars));
        assert(seq![s[j]] =~= seq![',']);
        assert(enc + (seq![','] + tail_chars) =~= (enc + (seq![','] + spec_body(inner.0)))
            + seq![']']);
        assert(s.subrange(i, r.1) == spec_body(r.0) + seq![']']);
    } else {
        assert(j < s.len() && s[j] == ']');
        assert(r.0 == seq![first.0]);
        assert(r.1 == j + 1);
        assert(r.0[0] == first.0);
        assert(spec_body(r.0) == spec_encode_note(first.0));
        lemma_subrange_glue(s, i, j, r.1);
        assert(s.subrange(j, r.1) =~= seq![s[j]]);
        assert(seq![s[j]] =~= seq![']']);
        assert(s.subrange(i, r.1) == spec_body(r.0) + seq![']']);
    }
}

/// An accepted document is the encoding of the collection it yields: with
/// the round trip, a document is accepted exactly when some collection
/// encodes to it, and then yields that collection.
pub proof fn lemma_document_sound(s: Seq<char>)
    requires
        spec_parse_document(s) is Some,
    ensures
        s == spec_encode_notes(spec_parse_document(s)->Some_0),
{
    let ns = spec_parse_document(s)->Some_0;
    assert(s[0] == '[');
    if s.len() >= 2 && s[1] == ']' {
        assert(s.len() == 2);
        assert(ns == Seq::<NoteView>::empty());
        assert(spec_body(ns) == Seq::<char>::empty());
        assert(spec_encode_notes(ns) =~= s);
    } else {
        lemma_parse_items_sound(s, 1);
        let r = spec_parse_items(s, 1)->Some_0;
        assert(ns == r.0);
        assert(r.1 == s.len());
        assert(s.subrange(1, s.len() as int) == spec_body(ns) + seq![']']);
        lemma_subrange_glue(s, 0, 1, s.len() as int);
        assert(s.subrange(0, s.len() as int) =~= s);
        assert(s.subrange(0, 1) =~= seq![s[0]]);
        assert(seq![s[0]] =~= seq!['[']);
        assert(seq!['['] + (spec_body(ns) + seq![']']) =~= (seq!['['] + spec_body(ns))
            + seq![']']);
        assert(s == spec_encode_notes(ns));
    }
}

} // verus!

verus! {

/// A stretch of `s` splits at any point in between.
proof fn lemma_subrange_glue(s: Seq<char>, a: int, b: int, c: int)
    requires
        0 <= a <= b <= c <= s.len(),
    ensures
        s.subrange(a, c) == s.subrange(a, b) + s.subrange(b, c),
{
    assert(s.subrange(a, c) =~= s.subrange(a, b) + s.subrange(b, c));
}

} // verus!

