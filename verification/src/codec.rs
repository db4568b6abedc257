//! Durable-state encoding and decoding. The persisted file is a single JSON
//! document: the current envelope `{"state": ..., "crashed": ...}` or, in
//! legacy files, a bare state object. The encoder emits one canonical,
//! compact form; the decoder reads exactly that form (plus the standard JSON
//! string escapes) and is proved to invert the encoder.

use vstd::prelude::*;

use crate::state::EncounterState;
use crate::state::StateModel;

verus! {

// ---------------------------------------------------------------------------
// Literal pieces of the canonical document.
// ---------------------------------------------------------------------------

pub open spec fn lit_saved_open() -> Seq<char> {
    seq!['{', '"', 's', 't', 'a', 't', 'e', '"', ':']
}

pub open spec fn lit_crashed() -> Seq<char> {
    seq![',', '"', 'c', 'r', 'a', 's', 'h', 'e', 'd', '"', ':']
}

pub open spec fn lit_state_open() -> Seq<char> {
    seq!['{', '"', 'e', 'n', 'c', 'o', 'u', 'n', 't', 'e', 'r', 's', '"', ':']
}

pub open spec fn lit_last() -> Seq<char> {
    seq![',', '"', 'l', 'a', 's', 't', '_', 'e', 'n', 'c', 'o', 'u', 'n', 't', 'e', 'r', '"', ':']
}

pub open spec fn lit_stats() -> Seq<char> {
    seq![',', '"', 'm', 'o', 'n', '_', 's', 't', 'a', 't', 's', '"', ':']
}

pub open spec fn lit_debug() -> Seq<char> {
    seq![',', '"', 'd', 'e', 'b', 'u', 'g', '"', ':']
}

pub open spec fn lit_in_encounter() -> Seq<char> {
    seq![',', '"', 'i', 'n', '_', 'e', 'n', 'c', 'o', 'u', 'n', 't', 'e', 'r', '"', ':']
}

pub open spec fn lit_is_not_counted() -> Seq<char> {
    seq![',', '"', 'i', 's', '_', 'n', 'o', 't', '_', 'c', 'o', 'u', 'n', 't', 'e', 'd', '"', ':']
}

pub open spec fn lit_unsaved() -> Seq<char> {
    seq![
        ',',
        '"',
        'u',
        'n',
        's',
        'a',
        'v',
        'e',
        'd',
        '_',
        'e',
        'n',
        'c',
        'o',
        'u',
        'n',
        't',
        'e',
        'r',
        's',
        '"',
        ':',
    ]
}

// ---------------------------------------------------------------------------
// The canonical encoding.
// ---------------------------------------------------------------------------

/// The decimal digits of `n`, most significant first, without leading zeros.
pub open spec fn enc_nat(n: int) -> Seq<char>
    decreases n,
{
    if n < 10 {
        seq![((48 + (if n < 0 { 0int } else { n }) % 10) as u8) as char]
    } else {
        enc_nat(n / 10) + seq![((48 + n % 10) as u8) as char]
    }
}

/// A lowercase hexadecimal digit.
pub open spec fn hex_char(d: int) -> char {
    if d < 10 {
        ((48 + d) as u8) as char
    } else {
        ((87 + d) as u8) as char
    }
}

/// The encoding of one character inside a JSON string: quotes and
/// backslashes are escaped, control characters become `\u00XX`, everything
/// else stands for itself.
pub open spec fn esc(c: char) -> Seq<char> {
    if c == '"' {
        seq!['\\', '"']
    } else if c == '\\' {
        seq!['\\', '\\']
    } else if (c as u32) < 32 {
        seq!['\\', 'u', '0', '0', hex_char((c as u32) as int / 16), hex_char((c as u32) as int % 16)]
    } else {
        seq![c]
    }
}

/// The body of a JSON string, from character `i` of `s` on.
pub open spec fn enc_str_body(s: Seq<char>, i: int) -> Seq<char>
    decreases s.len() - i,
{
    if i < 0 || i >= s.len() {
        Seq::empty()
    } else {
        esc(s[i]) + enc_str_body(s, i + 1)
    }
}

/// A JSON string: quoted, escaped text.
pub open spec fn enc_string(s: Seq<char>) -> Seq<char> {
    seq!['"'] + (enc_str_body(s, 0) + seq!['"'])
}

pub open spec fn enc_bool(b: bool) -> Seq<char> {
    if b {
        seq!['t', 'r', 'u', 'e']
    } else {
        seq!['f', 'a', 'l', 's', 'e']
    }
}

/// The elements of a string array after the first, from index `i` on, and
/// the closing bracket.
pub open spec fn enc_strings_from(a: Seq<Seq<char>>, i: int) -> Seq<char>
    decreases a.len() - i,
{
    if i < 0 || i >= a.len() {
        seq![']']
    } else {
        seq![','] + (enc_string(a[i]) + enc_strings_from(a, i + 1))
    }
}

/// A JSON array of strings.
pub open spec fn enc_str_array(a: Seq<Seq<char>>) -> Seq<char> {
    if a.len() == 0 {
        seq!['[', ']']
    } else {
        seq!['['] + (enc_string(a[0]) + enc_strings_from(a, 1))
    }
}

/// One member of the tally object: a name and its count.
pub open spec fn enc_stats_entry(p: (Seq<char>, u32)) -> Seq<char> {
    enc_string(p.0) + (seq![':'] + enc_nat(p.1 as int))
}

/// The members of the tally object after the first, from index `i` on, and
/// the closing brace.
pub open spec fn enc_stats_from(st: Seq<(Seq<char>, u32)>, i: int) -> Seq<char>
    decreases st.len() - i,
{
    if i < 0 || i >= st.len() {
        seq!['}']
    } else {
        seq![','] + (enc_stats_entry(st[i]) + enc_stats_from(st, i + 1))
    }
}

/// The tally as a JSON object, entries in their stored order.
pub open spec fn enc_stats(st: Seq<(Seq<char>, u32)>) -> Seq<char> {
    if st.len() == 0 {
        seq!['{', '}']
    } else {
        seq!['{'] + (enc_stats_entry(st[0]) + enc_stats_from(st, 1))
    }
}

/// The canonical encoding of a state object, members in their fixed order.
pub open spec fn enc_state(m: StateModel) -> Seq<char> {
    lit_state_open() + (enc_nat(m.encounters as int) + (lit_last() + (enc_str_array(
        m.last_encounter,
    ) + (lit_stats() + (enc_stats(m.mon_stats) + (lit_debug() + (enc_bool(m.debug) + (
    lit_in_encounter() + (enc_bool(m.in_encounter) + (lit_is_not_counted() + (enc_bool(
        m.is_not_counted,
    ) + (lit_unsaved() + (enc_nat(m.unsaved_encounters as int) + seq!['}'])))))))))))))
}

/// The canonical encoding of the envelope document.
pub open spec fn enc_saved(m: StateModel, crashed: bool) -> Seq<char> {
    lit_saved_open() + (enc_state(m) + (lit_crashed() + (enc_bool(crashed) + seq!['}'])))
}

// ---------------------------------------------------------------------------
// The executable encoder.
// ---------------------------------------------------------------------------

/// Relies on `String`'s `FromIterator` implementation, through
/// `Iterator::collect`: builds the string that holds exactly these
/// characters, in order.
#[verifier::external_body]
fn chars_to_string(v: &Vec<char>) -> (r: String)
    ensures
        r@ == v@,
{
    v.iter().collect()
}

/// Appends the decimal digits of `n`.
fn push_nat(out: &mut Vec<char>, n: u32)
    ensures
        final(out)@ == old(out)@ + enc_nat(n as int),
    decreases n,
{
    if n < 10 {
        out.push(((48 + (n as u8)) as u8) as char);
        proof {
            assert(final(out)@ =~= old(out)@ + enc_nat(n as int));
        }
    } else {
        push_nat(out, n / 10);
        out.push((48 + ((n % 10) as u8)) as char);
        proof {
            assert(final(out)@ =~= old(out)@ + enc_nat(n as int));
        }
    }
}

fn hex_char_exec(d: u32) -> (r: char)
    requires
        d < 16,
    ensures
        r == hex_char(d as int),
{
    if d < 10 {
        ((48 + d) as u8) as char
    } else {
        ((87 + d) as u8) as char
    }
}

/// Appends a quoted, escaped JSON string holding the text of `s`.
fn push_string(out: &mut Vec<char>, s: &String)
    ensures
        final(out)@ == old(out)@ + enc_string(s@),
{
    let chars: Vec<char> = crate::classify::str_to_chars(s.as_str());
    out.push('"');
    let ghost start = out@;
    let n: usize = chars.len();
    let mut i: usize = 0;
    while i < n
        invariant
            i <= n,
            n == chars@.len(),
            chars@ == s@,
            start + enc_str_body(s@, 0) == out@ + enc_str_body(s@, i as int),
        decreases n - i,
    {
        let ghost o0 = out@;
        let c: char = chars[i];
        let cv: u32 = c as u32;
        if c == '"' {
            out.push('\\');
            out.push('"');
        } else if c == '\\' {
            out.push('\\');
            out.push('\\');
        } else if cv < 32 {
            out.push('\\');
            out.push('u');
            out.push('0');
            out.push('0');
            out.push(hex_char_exec(cv / 16));
            out.push(hex_char_exec(cv % 16));
        } else {
            out.push(c);
        }
        proof {
            assert(out@ =~= o0 + esc(s@[i as int]));
            assert(enc_str_body(s@, i as int) == esc(s@[i as int]) + enc_str_body(s@, i + 1));
            assert(o0 + (esc(s@[i as int]) + enc_str_body(s@, i + 1)) =~= (o0 + esc(s@[i as int]))
                + enc_str_body(s@, i + 1));
        }
        i = i + 1;
    }
    out.push('"');
    proof {
        assert(enc_str_body(s@, n as int) =~= Seq::<char>::empty());
        assert(final(out)@ =~= old(out)@ + enc_string(s@));
    }
}

/// Appends `true` or `false`.
fn push_bool(out: &mut Vec<char>, b: bool)
    ensures
        final(out)@ == old(out)@ + enc_bool(b),
{
    if b {
        out.push('t');
        out.push('r');
        out.push('u');
        out.push('e');
    } else {
        out.push('f');
        out.push('a');
        out.push('l');
        out.push('s');
        out.push('e');
    }
    proof {
        assert(final(out)@ =~= old(out)@ + enc_bool(b));
    }
}

/// Appends the characters of an ASCII-or-not string slice, unchanged.
fn push_lit(out: &mut Vec<char>, lit: &str)
    ensures
        final(out)@ == old(out)@ + lit@,
{
    let n: usize = lit.unicode_len();
    let mut i: usize = 0;
    while i < n
        invariant
            i <= n,
            n == lit@.len(),
            out@ == old(out)@ + lit@.subrange(0, i as int),
        decreases n - i,
    {
        out.push(lit.get_char(i));
        i = i + 1;
        proof {
            assert(out@ =~= old(out)@ + lit@.subrange(0, i as int));
        }
    }
    proof {
        assert(final(out)@ =~= old(out)@ + lit@);
    }
}

/// Appends a JSON array holding the names of `a`.
fn push_str_array(out: &mut Vec<char>, a: &Vec<String>)
    ensures
        final(out)@ == old(out)@ + enc_str_array(a.deep_view()),
{
    let ghost adv = a.deep_view();
    proof {
        assert(adv.len() == a@.len());
    }
    if a.len() == 0 {
        out.push('[');
        out.push(']');
        proof {
            assert(final(out)@ =~= old(out)@ + enc_str_array(adv));
        }
        return ;
    }
    out.push('[');
    proof {
        assert(adv[0] == a@[0]@);
    }
    push_string(out, &a[0]);
    let ghost base = old(out)@ + (seq!['['] + (enc_string(adv[0]) + enc_strings_from(adv, 1)));
    proof {
        assert(out@ + enc_strings_from(adv, 1) =~= base);
    }
    let n: usize = a.len();
    let mut i: usize = 1;
    while i < n
        invariant
            1 <= i <= n,
            n == a@.len(),
            adv == a.deep_view(),
            adv.len() == n,
            out@ + enc_strings_from(adv, i as int) == base,
        decreases n - i,
    {
        let ghost o0 = out@;
        out.push(',');
        proof {
            assert(adv[i as int] == a@[i as int]@);
        }
        push_string(out, &a[i]);
        proof {
            assert(out@ =~= o0 + (seq![','] + enc_string(adv[i as int])));
            assert(enc_strings_from(adv, i as int) == seq![','] + (enc_string(adv[i as int])
                + enc_strings_from(adv, i + 1)));
            assert(out@ + enc_strings_from(adv, i + 1) =~= o0 + enc_strings_from(adv, i as int));
        }
        i = i + 1;
    }
    out.push(']');
    proof {
        assert(enc_strings_from(adv, n as int) =~= seq![']']);
        assert(final(out)@ =~= base);
        assert(base =~= old(out)@ + enc_str_array(adv));
    }
}

/// Appends a JSON object holding the tally of `st`, entries in order.
fn push_stats(out: &mut Vec<char>, st: &Vec<(String, u32)>)
    ensures
        final(out)@ == old(out)@ + enc_stats(crate::state::entries_view(st@)),
{
    let ghost ev = crate::state::entries_view(st@);
    proof {
        assert(ev.len() == st@.len());
    }
    if st.len() == 0 {
        out.push('{');
        out.push('}');
        proof {
            assert(final(out)@ =~= old(out)@ + enc_stats(ev));
        }
        return ;
    }
    out.push('{');
    proof {
        assert(ev[0] == (st@[0].0@, st@[0].1));
    }
    push_string(out, &st[0].0);
    out.push(':');
    push_nat(out, st[0].1);
    let ghost base = old(out)@ + (seq!['{'] + (enc_stats_entry(ev[0]) + enc_stats_from(ev, 1)));
    proof {
        assert(out@ + enc_stats_from(ev, 1) =~= base);
    }
    let n: usize = st.len();
    let mut i: usize = 1;
    while i < n
        invariant
            1 <= i <= n,
            n == st@.len(),
            ev == crate::state::entries_view(st@),
            ev.len() == n,
            out@ + enc_stats_from(ev, i as int) == base,
        decreases n - i,
    {
        let ghost o0 = out@;
        out.push(',');
        proof {
            assert(ev[i as int] == (st@[i as int].0@, st@[i as int].1));
        }
        push_string(out, &st[i].0);
        out.push(':');
        push_nat(out, st[i].1);
        proof {
            assert(out@ =~= o0 + (seq![','] + enc_stats_entry(ev[i as int])));
            assert(enc_stats_from(ev, i as int) == seq![','] + (enc_stats_entry(ev[i as int])
                + enc_stats_from(ev, i + 1)));
            assert(out@ + enc_stats_from(ev, i + 1) =~= o0 + enc_stats_from(ev, i as int));
        }
        i = i + 1;
    }
    out.push('}');
    proof {
        assert(enc_stats_from(ev, n as int) =~= seq!['}']);
        assert(final(out)@ =~= base);
        assert(base =~= old(out)@ + enc_stats(ev));
    }
}

/// Concatenation of sequences is associative.
proof fn lemma_assoc(a: Seq<char>, b: Seq<char>, c: Seq<char>)
    ensures
        (a + b) + c == a + (b + c),
{
    assert((a + b) + c =~= a + (b + c));
}

/// Appends the canonical state object.
fn push_state(out: &mut Vec<char>, st: &EncounterState)
    ensures
        final(out)@ == old(out)@ + enc_state(st@),
{
    let ghost m = st@;
    let ghost o0 = out@;
    push_lit(out, "{\"encounters\":");
    proof {
        reveal_strlit("{\"encounters\":");
        assert("{\"encounters\":"@ =~= lit_state_open());
    }
    let ghost o1 = out@;
    push_nat(out, st.encounters);
    let ghost o2 = out@;
    push_lit(out, ",\"last_encounter\":");
    proof {
        reveal_strlit(",\"last_encounter\":");
        assert(",\"last_encounter\":"@ =~= lit_last());
    }
    let ghost o3 = out@;
    push_str_array(out, &st.last_encounter);
    let ghost o4 = out@;
    push_lit(out, ",\"mon_stats\":");
    proof {
        reveal_strlit(",\"mon_stats\":");
        assert(",\"mon_stats\":"@ =~= lit_stats());
    }
    let ghost o5 = out@;
    push_stats(out, &st.mon_stats);
    let ghost o6 = out@;
    push_lit(out, ",\"debug\":");
    proof {
        reveal_strlit(",\"debug\":");
        assert(",\"debug\":"@ =~= lit_debug());
    }
    let ghost o7 = out@;
    push_bool(out, st.debug);
    let ghost o8 = out@;
    push_lit(out, ",\"in_encounter\":");
    proof {
        reveal_strlit(",\"in_encounter\":");
        assert(",\"in_encounter\":"@ =~= lit_in_encounter());
    }
    let ghost o9 = out@;
    push_bool(out, st.in_encounter);
    let ghost o10 = out@;
    push_lit(out, ",\"is_not_counted\":");
    proof {
        reveal_strlit(",\"is_not_counted\":");
        assert(",\"is_not_counted\":"@ =~= lit_is_not_counted());
    }
    let ghost o11 = out@;
    push_bool(out, st.is_not_counted);
    let ghost o12 = out@;
    push_lit(out, ",\"unsaved_encounters\":");
    proof {
        reveal_strlit(",\"unsaved_encounters\":");
        assert(",\"unsaved_encounters\":"@ =~= lit_unsaved());
    }
    let ghost o13 = out@;
    push_nat(out, st.unsaved_encounters);
    out.push('}');
    proof {
        let p15 = seq!['}'];
        let t15 = p15;
        let t14 = enc_nat(m.unsaved_encounters as int) + t15;
        let t13 = lit_unsaved() + t14;
        let t12 = enc_bool(m.is_not_counted) + t13;
        let t11 = lit_is_not_counted() + t12;
        let t10 = enc_bool(m.in_encounter) + t11;
        let t9 = lit_in_encounter() + t10;
        let t8 = enc_bool(m.debug) + t9;
        let t7 = lit_debug() + t8;
        let t6 = enc_stats(m.mon_stats) + t7;
        let t5 = lit_stats() + t6;
        let t4 = enc_str_array(m.last_encounter) + t5;
        let t3 = lit_last() + t4;
        let t2 = enc_nat(m.encounters as int) + t3;
        let t1 = lit_state_open() + t2;
        assert(enc_state(m) == t1);
        assert(final(out)@ =~= (o13 + enc_nat(m.unsaved_encounters as int)) + p15);
        lemma_assoc(o13, enc_nat(m.unsaved_encounters as int), t15);
        assert(final(out)@ == o13 + t14);
        lemma_assoc(o12, lit_unsaved(), t14);
        assert(final(out)@ == o12 + t13);
        lemma_assoc(o11, enc_bool(m.is_not_counted), t13);
        assert(final(out)@ == o11 + t12);
        lemma_assoc(o10, lit_is_not_counted(), t12);
        assert(final(out)@ == o10 + t11);
        lemma_assoc(o9, enc_bool(m.in_encounter), t11);
        assert(final(out)@ == o9 + t10);
        lemma_assoc(o8, lit_in_encounter(), t10);
        assert(final(out)@ == o8 + t9);
        lemma_assoc(o7, enc_bool(m.debug), t9);
        assert(final(out)@ == o7 + t8);
        lemma_assoc(o6, lit_debug(), t8);
        assert(final(out)@ == o6 + t7);
        lemma_assoc(o5, enc_stats(m.mon_stats), t7);
        assert(final(out)@ == o5 + t6);
        lemma_assoc(o4, lit_stats(), t6);
        assert(final(out)@ == o4 + t5);
        lemma_assoc(o3, enc_str_array(m.last_encounter), t5);
        assert(final(out)@ == o3 + t4);
        lemma_assoc(o2, lit_last(), t4);
        assert(final(out)@ == o2 + t3);
        lemma_assoc(o1, enc_nat(m.encounters as int), t3);
        assert(final(out)@ == o1 + t2);
        lemma_assoc(o0, lit_state_open(), t2);
        assert(final(out)@ == o0 + t1);
    }
}

// ---------------------------------------------------------------------------
// The decoding: exactly the canonical form, plus the standard JSON string
// escapes.
// ---------------------------------------------------------------------------

/// Consumes the exact literal `lit` at `pos`.
pub open spec fn dec_lit(s: Seq<char>, pos: int, lit: Seq<char>) -> Option<int> {
    if 0 <= pos && pos + lit.len() <= s.len() && s.subrange(pos, pos + lit.len()) == lit {
        Some(pos + lit.len())
    } else {
        None
    }
}

pub open spec fn is_digit(c: char) -> bool {
    48 <= (c as u32) && (c as u32) <= 57
}

pub open spec fn digit_val(c: char) -> int {
    (c as u32) - 48
}

/// Consumes the digits at `pos`, extending `acc`; fails when the value
/// leaves the unsigned 32-bit range.
pub open spec fn dec_digits(s: Seq<char>, pos: int, acc: int) -> Option<(int, int)>
    decreases s.len() - pos,
{
    if pos < 0 || pos >= s.len() || !is_digit(s[pos]) {
        Some((acc, pos))
    } else if acc * 10 + digit_val(s[pos]) > u32::MAX {
        None
    } else {
        dec_digits(s, pos + 1, acc * 10 + digit_val(s[pos]))
    }
}

/// Consumes a non-negative integer at `pos`.
pub open spec fn dec_u32(s: Seq<char>, pos: int) -> Option<(int, int)> {
    if 0 <= pos && pos < s.len() && is_digit(s[pos]) {
        dec_digits(s, pos, 0)
    } else {
        None
    }
}

/// Reading digits never moves backwards nor past the end.
pub proof fn lemma_digits_progress(s: Seq<char>, pos: int, acc: int)
    requires
        0 <= pos <= s.len(),
    ensures
        dec_digits(s, pos, acc) matches Some(r) ==> pos <= r.1 <= s.len(),
    decreases s.len() - pos,
{
    if pos < s.len() && is_digit(s[pos]) && acc * 10 + digit_val(s[pos]) <= u32::MAX {
        lemma_digits_progress(s, pos + 1, acc * 10 + digit_val(s[pos]));
    }
}

/// Reading an integer consumes at least one character.
pub proof fn lemma_u32_progress(s: Seq<char>, pos: int)
    ensures
        dec_u32(s, pos) matches Some(r) ==> pos < r.1 <= s.len(),
{
    if 0 <= pos && pos < s.len() && is_digit(s[pos]) {
        if digit_val(s[pos]) <= u32::MAX {
            lemma_digits_progress(s, pos + 1, digit_val(s[pos]));
        }
    }
}

/// The value of a hexadecimal digit, or a negative number for any other
/// character.
pub open spec fn hex_val(c: char) -> int {
    if 48 <= (c as u32) && (c as u32) <= 57 {
        (c as u32) - 48
    } else if 97 <= (c as u32) && (c as u32) <= 102 {
        (c as u32) - 87
    } else if 65 <= (c as u32) && (c as u32) <= 70 {
        (c as u32) - 55
    } else {
        -1
    }
}

/// The character named by a single-letter escape, if any.
pub open spec fn unesc(e: char) -> Option<char> {
    if e == '"' {
        Some('"')
    } else if e == '\\' {
        Some('\\')
    } else if e == '/' {
        Some('/')
    } else if e == 'b' {
        Some('\u{8}')
    } else if e == 'f' {
        Some('\u{c}')
    } else if e == 'n' {
        Some('\n')
    } else if e == 'r' {
        Some('\r')
    } else if e == 't' {
        Some('\t')
    } else {
        None
    }
}

/// Consumes the rest of a JSON string body, starting inside the quotes at
/// `pos`, up to and including the closing quote.
pub open spec fn dec_str_body(s: Seq<char>, pos: int) -> Option<(Seq<char>, int)>
    decreases s.len() - pos,
{
    if pos < 0 || pos >= s.len() {
        None
    } else if s[pos] == '"' {
        Some((Seq::empty(), pos + 1))
    } else if s[pos] == '\\' {
        if pos + 1 >= s.len() {
            None
        } else if s[pos + 1] == 'u' {
            if pos + 6 > s.len() {
                None
            } else if s[pos + 2] == '0' && s[pos + 3] == '0' && hex_val(s[pos + 4]) >= 0 && hex_val(
                s[pos + 5],
            ) >= 0 {
                match dec_str_body(s, pos + 6) {
                    Some(r) => Some(
                        (
                            seq![(((hex_val(s[pos + 4]) * 16 + hex_val(s[pos + 5])) as u8) as char)]
                                + r.0,
                            r.1,
                        ),
                    ),
                    None => None,
                }
            } else {
                None
            }
        } else {
            match unesc(s[pos + 1]) {
                Some(c) => match dec_str_body(s, pos + 2) {
                    Some(r) => Some((seq![c] + r.0, r.1)),
                    None => None,
                },
                None => None,
            }
        }
    } else if (s[pos] as u32) < 32 {
        None
    } else {
        match dec_str_body(s, pos + 1) {
            Some(r) => Some((seq![s[pos]] + r.0, r.1)),
            None => None,
        }
    }
}

/// Consumes a quoted JSON string at `pos`.
pub open spec fn dec_string(s: Seq<char>, pos: int) -> Option<(Seq<char>, int)> {
    if 0 <= pos && pos < s.len() && s[pos] == '"' {
        dec_str_body(s, pos + 1)
    } else {
        None
    }
}

/// Reading a string body consumes at least the closing quote.
pub proof fn lemma_str_body_progress(s: Seq<char>, pos: int)
    ensures
        dec_str_body(s, pos) matches Some(r) ==> pos < r.1 <= s.len(),
    decreases s.len() - pos,
{
    if 0 <= pos && pos < s.len() {
        lemma_str_body_progress(s, pos + 1);
        if pos + 2 <= s.len() {
            lemma_str_body_progress(s, pos + 2);
        }
        if pos + 6 <= s.len() {
            lemma_str_body_progress(s, pos + 6);
        }
    }
}

/// Reading a string consumes at least its two quotes.
pub proof fn lemma_string_progress(s: Seq<char>, pos: int)
    ensures
        dec_string(s, pos) matches Some(r) ==> pos + 1 < r.1 <= s.len(),
{
    lemma_str_body_progress(s, pos + 1);
}

/// Consumes `true` or `false` at `pos`.
pub open spec fn dec_bool(s: Seq<char>, pos: int) -> Option<(bool, int)> {
    match dec_lit(s, pos, enc_bool(true)) {
        Some(p) => Some((true, p)),
        None => match dec_lit(s, pos, enc_bool(false)) {
            Some(p) => Some((false, p)),
            None => None,
        },
    }
}

/// Consumes the remaining elements of a string array, from a position just
/// after an element: a comma and a string, repeated, then the closing
/// bracket.
pub open spec fn dec_arr_rest(s: Seq<char>, pos: int) -> Option<(Seq<Seq<char>>, int)>
    decreases s.len() - pos,
{
    if pos < 0 || pos >= s.len() {
        None
    } else if s[pos] == ']' {
        Some((Seq::empty(), pos + 1))
    } else if s[pos] == ',' {
        match dec_string(s, pos + 1) {
            Some(r) => {
                proof {
                    lemma_string_progress(s, pos + 1);
                }
                match dec_arr_rest(s, r.1) {
                    Some(q) => Some((seq![r.0] + q.0, q.1)),
                    None => None,
                }
            },
            None => None,
        }
    } else {
        None
    }
}

/// Consumes a JSON array of strings at `pos`.
pub open spec fn dec_str_array(s: Seq<char>, pos: int) -> Option<(Seq<Seq<char>>, int)> {
    if 0 <= pos && pos < s.len() && s[pos] == '[' {
        if pos + 1 < s.len() && s[pos + 1] == ']' {
            Some((Seq::empty(), pos + 2))
        } else {
            match dec_string(s, pos + 1) {
                Some(r) => match dec_arr_rest(s, r.1) {
                    Some(q) => Some((seq![r.0] + q.0, q.1)),
                    None => None,
                },
                None => None,
            }
        }
    } else {
        None
    }
}

/// Consumes one tally member: a name, a colon and a count.
pub open spec fn dec_stats_entry(s: Seq<char>, pos: int) -> Option<((Seq<char>, u32), int)> {
    match dec_string(s, pos) {
        Some(r) => {
            if r.1 < s.len() && s[r.1] == ':' {
                match dec_u32(s, r.1 + 1) {
                    Some(q) => Some(((r.0, q.0 as u32), q.1)),
                    None => None,
                }
            } else {
                None
            }
        },
        None => None,
    }
}

/// Reading a tally member consumes at least one character.
pub proof fn lemma_stats_entry_progress(s: Seq<char>, pos: int)
    ensures
        dec_stats_entry(s, pos) matches Some(r) ==> pos < r.1 <= s.len(),
{
    lemma_string_progress(s, pos);
    match dec_string(s, pos) {
        Some(r) => {
            lemma_u32_progress(s, r.1 + 1);
        },
        None => {},
    }
}

/// Consumes the remaining members of the tally object, from a position just
/// after a member: a comma and a member, repeated, then the closing brace.
pub open spec fn dec_stats_rest(s: Seq<char>, pos: int) -> Option<(Seq<(Seq<char>, u32)>, int)>
    decreases s.len() - pos,
{
    if pos < 0 || pos >= s.len() {
        None
    } else if s[pos] == '}' {
        Some((Seq::empty(), pos + 1))
    } else if s[pos] == ',' {
        match dec_stats_entry(s, pos + 1) {
            Some(r) => {
                proof {
                    lemma_stats_entry_progress(s, pos + 1);
                }
                match dec_stats_rest(s, r.1) {
                    Some(q) => Some((seq![r.0] + q.0, q.1)),
                    None => None,
                }
            },
            None => None,
        }
    } else {
        None
    }
}

/// Consumes the tally object at `pos`.
pub open spec fn dec_stats_obj(s: Seq<char>, pos: int) -> Option<(Seq<(Seq<char>, u32)>, int)> {
    if 0 <= pos && pos < s.len() && s[pos] == '{' {
        if pos + 1 < s.len() && s[pos + 1] == '}' {
            Some((Seq::empty(), pos + 2))
        } else {
            match dec_stats_entry(s, pos + 1) {
                Some(r) => match dec_stats_rest(s, r.1) {
                    Some(q) => Some((seq![r.0] + q.0, q.1)),
                    None => None,
                },
                None => None,
            }
        }
    } else {
        None
    }
}

/// Consumes a member literal and then its integer value.
pub open spec fn dec_field_u32(s: Seq<char>, pos: int, lit: Seq<char>) -> Option<(int, int)> {
    match dec_lit(s, pos, lit) {
        Some(p) => dec_u32(s, p),
        None => None,
    }
}

/// Consumes a member literal and then its boolean value.
pub open spec fn dec_field_bool(s: Seq<char>, pos: int, lit: Seq<char>) -> Option<(bool, int)> {
    match dec_lit(s, pos, lit) {
        Some(p) => dec_bool(s, p),
        None => None,
    }
}

/// Consumes a state object at `pos`: every member, in the canonical order.
pub open spec fn dec_state(s: Seq<char>, pos: int) -> Option<(StateModel, int)> {
    match dec_field_u32(s, pos, lit_state_open()) {
        None => None,
        Some((encounters, p1)) => match dec_lit(s, p1, lit_last()) {
            None => None,
            Some(p2) => match dec_str_array(s, p2) {
                None => None,
                Some((last, p3)) => match dec_lit(s, p3, lit_stats()) {
                    None => None,
                    Some(p4) => match dec_stats_obj(s, p4) {
                        None => None,
                        Some((stats, p5)) => match dec_field_bool(s, p5, lit_debug()) {
                            None => None,
                            Some((debug, p6)) => match dec_field_bool(
                                s,
                                p6,
                                lit_in_encounter(),
                            ) {
                                None => None,
                                Some((in_enc, p7)) => match dec_field_bool(
                                    s,
                                    p7,
                                    lit_is_not_counted(),
                                ) {
                                    None => None,
                                    Some((not_counted, p8)) => match dec_field_u32(
                                        s,
                                        p8,
                                        lit_unsaved(),
                                    ) {
                                        None => None,
                                        Some((unsaved, p9)) => match dec_lit(s, p9, seq!['}']) {
                                            None => None,
                                            Some(p10) => Some(
                                                (
                                                    StateModel {
                                                        encounters: encounters as u32,
                                                        last_encounter: last,
                                                        mon_stats: stats,
                                                        debug: debug,
                                                        in_encounter: in_enc,
                                                        is_not_counted: not_counted,
                                                        unsaved_encounters: unsaved as u32,
                                                    },
                                                    p10,
                                                ),
                                            ),
                                        },
                                    },
                                },
                            },
                        },
                    },
                },
            },
        },
    }
}

/// Reads a whole document in the envelope form; the document must end with
/// the envelope.
pub open spec fn dec_saved_doc(s: Seq<char>) -> Option<(StateModel, bool)> {
    match dec_lit(s, 0, lit_saved_open()) {
        None => None,
        Some(p0) => match dec_state(s, p0) {
            None => None,
            Some((m, p1)) => match dec_lit(s, p1, lit_crashed()) {
                None => None,
                Some(p2) => match dec_bool(s, p2) {
                    None => None,
                    Some((crashed, p3)) => match dec_lit(s, p3, seq!['}']) {
                        None => None,
                        Some(p4) => if p4 == s.len() {
                            Some((m, crashed))
                        } else {
                            None
                        },
                    },
                },
            },
        },
    }
}

/// Reads a whole document in the legacy form: a bare state object.
pub open spec fn dec_legacy_doc(s: Seq<char>) -> Option<StateModel> {
    match dec_state(s, 0) {
        None => None,
        Some((m, p)) => if p == s.len() {
            Some(m)
        } else {
            None
        },
    }
}

// ---------------------------------------------------------------------------
// The executable decoder: each function computes exactly what its spec
// counterpart describes.
// ---------------------------------------------------------------------------

fn dlit(s: &Vec<char>, pos: usize, lit: &str) -> (r: Option<usize>)
    ensures
        r matches Some(p) ==> dec_lit(s@, pos as int, lit@) == Some(p as int),
        r is None ==> dec_lit(s@, pos as int, lit@) is None,
{
    let n: usize = lit.unicode_len();
    if n > s.len() || pos > s.len() - n {
        return None;
    }
    let mut i: usize = 0;
    while i < n
        invariant
            i <= n,
            n == lit@.len(),
            pos + n <= s@.len(),
            pos + n <= usize::MAX,
            forall|t: int| 0 <= t < i ==> s@[pos + t] == lit@[t],
        decreases n - i,
    {
        if s[pos + i] != lit.get_char(i) {
            proof {
                if s@.subrange(pos as int, pos + n) == lit@ {
                    assert(s@.subrange(pos as int, pos + n)[i as int] == lit@[i as int]);
                }
            }
            return None;
        }
        i = i + 1;
    }
    proof {
        assert(s@.subrange(pos as int, pos + n) =~= lit@);
    }
    Some(pos + n)
}

fn dbool(s: &Vec<char>, pos: usize) -> (r: Option<(bool, usize)>)
    ensures
        r matches Some(p) ==> dec_bool(s@, pos as int) == Some((p.0, p.1 as int)),
        r is None ==> dec_bool(s@, pos as int) is None,
{
    proof {
        reveal_strlit("true");
        reveal_strlit("false");
        assert("true"@ =~= enc_bool(true));
        assert("false"@ =~= enc_bool(false));
    }
    match dlit(s, pos, "true") {
        Some(p) => Some((true, p)),
        None => match dlit(s, pos, "false") {
            Some(p) => Some((false, p)),
            None => None,
        },
    }
}

fn is_digit_exec(c: char) -> (r: bool)
    ensures
        r == is_digit(c),
{
    let v: u32 = c as u32;
    48 <= v && v <= 57
}

fn ddigits(s: &Vec<char>, pos: usize, acc: u32) -> (r: Option<(u32, usize)>)
    requires
        pos <= s@.len(),
    ensures
        r matches Some(p) ==> dec_digits(s@, pos as int, acc as int) == Some((p.0 as int, p.1 as int)),
        r is None ==> dec_digits(s@, pos as int, acc as int) is None,
        r matches Some(p) ==> pos <= p.1 <= s@.len(),
    decreases s@.len() - pos,
{
    if pos >= s.len() || !is_digit_exec(s[pos]) {
        return Some((acc, pos));
    }
    let d: u32 = (s[pos] as u32) - 48;
    let a2: u64 = (acc as u64) * 10 + (d as u64);
    if a2 > u32::MAX as u64 {
        return None;
    }
    ddigits(s, pos + 1, a2 as u32)
}

fn du32(s: &Vec<char>, pos: usize) -> (r: Option<(u32, usize)>)
    requires
        pos <= s@.len(),
    ensures
        r matches Some(p) ==> dec_u32(s@, pos as int) == Some((p.0 as int, p.1 as int)),
        r is None ==> dec_u32(s@, pos as int) is None,
        r matches Some(p) ==> pos < p.1 <= s@.len(),
{
    if pos >= s.len() || !is_digit_exec(s[pos]) {
        return None;
    }
    proof {
        lemma_u32_progress(s@, pos as int);
    }
    ddigits(s, pos, 0)
}

fn hex_val_exec(c: char) -> (r: Option<u8>)
    ensures
        r matches Some(v) ==> hex_val(c) == v as int,
        r is None ==> hex_val(c) < 0,
        r matches Some(v) ==> v < 16,
{
    let v: u32 = c as u32;
    if 48 <= v && v <= 57 {
        Some((v - 48) as u8)
    } else if 97 <= v && v <= 102 {
        Some((v - 87) as u8)
    } else if 65 <= v && v <= 70 {
        Some((v - 55) as u8)
    } else {
        None
    }
}

fn unesc_exec(e: char) -> (r: Option<char>)
    ensures
        r == unesc(e),
{
    if e == '"' {
        Some('"')
    } else if e == '\\' {
        Some('\\')
    } else if e == '/' {
        Some('/')
    } else if e == 'b' {
        Some('\u{8}')
    } else if e == 'f' {
        Some('\u{c}')
    } else if e == 'n' {
        Some('\n')
    } else if e == 'r' {
        Some('\r')
    } else if e == 't' {
        Some('\t')
    } else {
        None
    }
}

fn dstr_body(s: &Vec<char>, pos: usize) -> (r: Option<(Vec<char>, usize)>)
    requires
        pos <= s@.len(),
    ensures
        r matches Some(p) ==> dec_str_body(s@, pos as int) == Some((p.0@, p.1 as int)),
        r is None ==> dec_str_body(s@, pos as int) is None,
        r matches Some(p) ==> pos < p.1 <= s@.len(),
    decreases s@.len() - pos,
{
    if pos >= s.len() {
        return None;
    }
    let c: char = s[pos];
    if c == '"' {
        let empty: Vec<char> = Vec::new();
        proof {
            assert(empty@ =~= Seq::<char>::empty());
        }
        return Some((empty, pos + 1));
    }
    if c == '\\' {
        if s.len() - pos < 2 {
            return None;
        }
        let e: char = s[pos + 1];
        if e == 'u' {
            if s.len() - pos < 6 {
                return None;
            }
            if s[pos + 2] != '0' || s[pos + 3] != '0' {
                return None;
            }
            let h1: Option<u8> = hex_val_exec(s[pos + 4]);
            let h2: Option<u8> = hex_val_exec(s[pos + 5]);
            match (h1, h2) {
                (Some(v1), Some(v2)) => {
                    let decoded: char = ((v1 * 16 + v2) as u8) as char;
                    match dstr_body(s, pos + 6) {
                        Some(p) => {
                            let (mut rest, rp): (Vec<char>, usize) = p;
                            rest.insert(0, decoded);
                            proof {
                                assert(rest@ =~= seq![decoded] + rest@.drop_first());
                            }
                            Some((rest, rp))
                        },
                        None => None,
                    }
                },
                _ => None,
            }
        } else {
            match unesc_exec(e) {
                Some(decoded) => match dstr_body(s, pos + 2) {
                    Some(p) => {
                        let (mut rest, rp): (Vec<char>, usize) = p;
                        rest.insert(0, decoded);
                        proof {
                            assert(rest@ =~= seq![decoded] + rest@.drop_first());
                        }
                        Some((rest, rp))
                    },
                    None => None,
                },
                None => None,
            }
        }
    } else if (c as u32) < 32 {
        None
    } else {
        match dstr_body(s, pos + 1) {
            Some(p) => {
                let (mut rest, rp): (Vec<char>, usize) = p;
                rest.insert(0, c);
                proof {
                    assert(rest@ =~= seq![c] + rest@.drop_first());
                }
                Some((rest, rp))
            },
            None => None,
        }
    }
}

fn dstring(s: &Vec<char>, pos: usize) -> (r: Option<(String, usize)>)
    requires
        pos <= s@.len(),
    ensures
        r matches Some(p) ==> dec_string(s@, pos as int) == Some((p.0@, p.1 as int)),
        r is None ==> dec_string(s@, pos as int) is None,
        r matches Some(p) ==> pos < p.1 <= s@.len(),
{
    if pos >= s.len() || s[pos] != '"' {
        return None;
    }
    match dstr_body(s, pos + 1) {
        Some(p) => Some((chars_to_string(&p.0), p.1)),
        None => None,
    }
}

fn darr_rest(s: &Vec<char>, pos: usize) -> (r: Option<(Vec<String>, usize)>)
    requires
        pos <= s@.len(),
    ensures
        r matches Some(p) ==> dec_arr_rest(s@, pos as int) == Some((p.0.deep_view(), p.1 as int)),
        r is None ==> dec_arr_rest(s@, pos as int) is None,
        r matches Some(p) ==> pos < p.1 <= s@.len(),
    decreases s@.len() - pos,
{
    if pos >= s.len() {
        return None;
    }
    let c: char = s[pos];
    if c == ']' {
        let empty: Vec<String> = Vec::new();
        proof {
            assert(empty.deep_view() =~= Seq::<Seq<char>>::empty());
        }
        return Some((empty, pos + 1));
    }
    if c != ',' {
        return None;
    }
    match dstring(s, pos + 1) {
        Some(sp) => {
            let (head, hp): (String, usize) = sp;
            match darr_rest(s, hp) {
                Some(p) => {
                    let (mut rest, rp): (Vec<String>, usize) = p;
                    let ghost rest_dv = rest.deep_view();
                    rest.insert(0, head);
                    proof {
                        assert(rest.deep_view() =~= seq![head@] + rest_dv);
                    }
                    Some((rest, rp))
                },
                None => None,
            }
        },
        None => None,
    }
}

fn darray(s: &Vec<char>, pos: usize) -> (r: Option<(Vec<String>, usize)>)
    requires
        pos <= s@.len(),
    ensures
        r matches Some(p) ==> dec_str_array(s@, pos as int) == Some((p.0.deep_view(), p.1 as int)),
        r is None ==> dec_str_array(s@, pos as int) is None,
        r matches Some(p) ==> pos < p.1 <= s@.len(),
{
    if pos >= s.len() || s[pos] != '[' {
        return None;
    }
    if s.len() - pos >= 2 && s[pos + 1] == ']' {
        let empty: Vec<String> = Vec::new();
        proof {
            assert(empty.deep_view() =~= Seq::<Seq<char>>::empty());
        }
        return Some((empty, pos + 2));
    }
    match dstring(s, pos + 1) {
        Some(sp) => {
            let (head, hp): (String, usize) = sp;
            match darr_rest(s, hp) {
                Some(p) => {
                    let (mut rest, rp): (Vec<String>, usize) = p;
                    let ghost rest_dv = rest.deep_view();
                    rest.insert(0, head);
                    proof {
                        assert(rest.deep_view() =~= seq![head@] + rest_dv);
                    }
                    Some((rest, rp))
                },
                None => None,
            }
        },
        None => None,
    }
}

fn dstats_entry(s: &Vec<char>, pos: usize) -> (r: Option<((String, u32), usize)>)
    requires
        pos <= s@.len(),
    ensures
        r matches Some(p) ==> dec_stats_entry(s@, pos as int) == Some(
            ((p.0.0@, p.0.1), p.1 as int),
        ),
        r is None ==> dec_stats_entry(s@, pos as int) is None,
        r matches Some(p) ==> pos < p.1 <= s@.len(),
{
    match dstring(s, pos) {
        Some(sp) => {
            let (name, np): (String, usize) = sp;
            if np < s.len() && s[np] == ':' {
                match du32(s, np + 1) {
                    Some(vp) => Some(((name, vp.0), vp.1)),
                    None => None,
                }
            } else {
                None
            }
        },
        None => None,
    }
}

fn dstats_rest(s: &Vec<char>, pos: usize) -> (r: Option<(Vec<(String, u32)>, usize)>)
    requires
        pos <= s@.len(),
    ensures
        r matches Some(p) ==> dec_stats_rest(s@, pos as int) == Some(
            (crate::state::entries_view(p.0@), p.1 as int),
        ),
        r is None ==> dec_stats_rest(s@, pos as int) is None,
        r matches Some(p) ==> pos < p.1 <= s@.len(),
    decreases s@.len() - pos,
{
    if pos >= s.len() {
        return None;
    }
    let c: char = s[pos];
    if c == '}' {
        let empty: Vec<(String, u32)> = Vec::new();
        proof {
            assert(crate::state::entries_view(empty@) =~= Seq::<(Seq<char>, u32)>::empty());
        }
        return Some((empty, pos + 1));
    }
    if c != ',' {
        return None;
    }
    match dstats_entry(s, pos + 1) {
        Some(ep) => {
            let (head, hp): ((String, u32), usize) = ep;
            match dstats_rest(s, hp) {
                Some(p) => {
                    let (mut rest, rp): (Vec<(String, u32)>, usize) = p;
                    let ghost rest_ev = crate::state::entries_view(rest@);
                    let ghost head_view = (head.0@, head.1);
                    rest.insert(0, head);
                    proof {
                        assert(crate::state::entries_view(rest@) =~= seq![head_view] + rest_ev);
                    }
                    Some((rest, rp))
                },
                None => None,
            }
        },
        None => None,
    }
}

fn dstats_obj(s: &Vec<char>, pos: usize) -> (r: Option<(Vec<(String, u32)>, usize)>)
    requires
        pos <= s@.len(),
    ensures
        r matches Some(p) ==> dec_stats_obj(s@, pos as int) == Some(
            (crate::state::entries_view(p.0@), p.1 as int),
        ),
        r is None ==> dec_stats_obj(s@, pos as int) is None,
        r matches Some(p) ==> pos < p.1 <= s@.len(),
{
    if pos >= s.len() || s[pos] != '{' {
        return None;
    }
    if s.len() - pos >= 2 && s[pos + 1] == '}' {
        let empty: Vec<(String, u32)> = Vec::new();
        proof {
            assert(crate::state::entries_view(empty@) =~= Seq::<(Seq<char>, u32)>::empty());
        }
        return Some((empty, pos + 2));
    }
    match dstats_entry(s, pos + 1) {
        Some(ep) => {
            let (head, hp): ((String, u32), usize) = ep;
            match dstats_rest(s, hp) {
                Some(p) => {
                    let (mut rest, rp): (Vec<(String, u32)>, usize) = p;
                    let ghost rest_ev = crate::state::entries_view(rest@);
                    let ghost head_view = (head.0@, head.1);
                    rest.insert(0, head);
                    proof {
                        assert(crate::state::entries_view(rest@) =~= seq![head_view] + rest_ev);
                    }
                    Some((rest, rp))
                },
                None => None,
            }
        },
        None => None,
    }
}

#[verifier::rlimit(100)]
#[verifier::spinoff_prover]
fn dstate(s: &Vec<char>, pos: usize) -> (r: Option<(EncounterState, usize)>)
    requires
        pos <= s@.len(),
    ensures
        r matches Some(p) ==> dec_state(s@, pos as int) == Some((p.0@, p.1 as int)),
        r is None ==> dec_state(s@, pos as int) is None,
        r matches Some(p) ==> p.1 <= s@.len(),
{
    let p0: usize = match dlit(s, pos, "{\"encounters\":") {
        Some(p) => p,
        None => {
            proof {
                reveal_strlit("{\"encounters\":");
                assert("{\"encounters\":"@ =~= lit_state_open());
            }
            return None;
        },
    };
    proof {
        reveal_strlit("{\"encounters\":");
        assert("{\"encounters\":"@ =~= lit_state_open());
        assert(p0 <= s@.len());
    }
    let (encounters, p1): (u32, usize) = match du32(s, p0) {
        Some(p) => p,
        None => {
            return None;
        },
    };
    let p2: usize = match dlit(s, p1, ",\"last_encounter\":") {
        Some(p) => p,
        None => {
            proof {
                reveal_strlit(",\"last_encounter\":");
                assert(",\"last_encounter\":"@ =~= lit_last());
            }
            return None;
        },
    };
    proof {
        reveal_strlit(",\"last_encounter\":");
        assert(",\"last_encounter\":"@ =~= lit_last());
        assert(p2 <= s@.len());
    }
    let (last_encounter, p3): (Vec<String>, usize) = match darray(s, p2) {
        Some(p) => p,
        None => {
            return None;
        },
    };
    let p4: usize = match dlit(s, p3, ",\"mon_stats\":") {
        Some(p) => p,
        None => {
            proof {
                reveal_strlit(",\"mon_stats\":");
                assert(",\"mon_stats\":"@ =~= lit_stats());
            }
            return None;
        },
    };
    proof {
        reveal_strlit(",\"mon_stats\":");
        assert(",\"mon_stats\":"@ =~= lit_stats());
        assert(p4 <= s@.len());
    }
    let (mon_stats, p5): (Vec<(String, u32)>, usize) = match dstats_obj(s, p4) {
        Some(p) => p,
        None => {
            return None;
        },
    };
    let p6: usize = match dlit(s, p5, ",\"debug\":") {
        Some(p) => p,
        None => {
            proof {
                reveal_strlit(",\"debug\":");
                assert(",\"debug\":"@ =~= lit_debug());
            }
            return None;
        },
    };
    proof {
        reveal_strlit(",\"debug\":");
        assert(",\"debug\":"@ =~= lit_debug());
        assert(p6 <= s@.len());
    }
    let (debug, p7): (bool, usize) = match dbool(s, p6) {
        Some(p) => p,
        None => {
            return None;
        },
    };
    proof {
        assert(p7 <= s@.len());
    }
    let p8: usize = match dlit(s, p7, ",\"in_encounter\":") {
        Some(p) => p,
        None => {
            proof {
                reveal_strlit(",\"in_encounter\":");
                assert(",\"in_encounter\":"@ =~= lit_in_encounter());
            }
            return None;
        },
    };
    proof {
        reveal_strlit(",\"in_encounter\":");
        assert(",\"in_encounter\":"@ =~= lit_in_encounter());
        assert(p8 <= s@.len());
    }
    let (in_encounter, p9): (bool, usize) = match dbool(s, p8) {
        Some(p) => p,
        None => {
            return None;
        },
    };
    let p10: usize = match dlit(s, p9, ",\"is_not_counted\":") {
        Some(p) => p,
        None => {
            proof {
                reveal_strlit(",\"is_not_counted\":");
                assert(",\"is_not_counted\":"@ =~= lit_is_not_counted());
            }
            return None;
        },
    };
    proof {
        reveal_strlit(",\"is_not_counted\":");
        assert(",\"is_not_counted\":"@ =~= lit_is_not_counted());
        assert(p10 <= s@.len());
    }
    let (is_not_counted, p11): (bool, usize) = match dbool(s, p10) {
        Some(p) => p,
        None => {
            return None;
        },
    };
    let p12: usize = match dlit(s, p11, ",\"unsaved_encounters\":") {
        Some(p) => p,
        None => {
            proof {
                reveal_strlit(",\"unsaved_encounters\":");
                assert(",\"unsaved_encounters\":"@ =~= lit_unsaved());
            }
            return None;
        },
    };
    proof {
        reveal_strlit(",\"unsaved_encounters\":");
        assert(",\"unsaved_encounters\":"@ =~= lit_unsaved());
        assert(p12 <= s@.len());
    }
    let (unsaved_encounters, p13): (u32, usize) = match du32(s, p12) {
        Some(p) => p,
        None => {
            return None;
        },
    };
    let p14: usize = match dlit(s, p13, "}") {
        Some(p) => p,
        None => {
            proof {
                reveal_strlit("}");
                assert("}"@ =~= seq!['}']);
            }
            return None;
        },
    };
    proof {
        reveal_strlit("}");
        assert("}"@ =~= seq!['}']);
    }
    let st = EncounterState {
        encounters,
        last_encounter,
        mon_stats,
        debug,
        in_encounter,
        is_not_counted,
        unsaved_encounters,
    };
    Some((st, p14))
}

fn dsaved(s: &Vec<char>) -> (r: Option<(EncounterState, bool)>)
    ensures
        r matches Some(p) ==> dec_saved_doc(s@) == Some((p.0@, p.1)),
        r is None ==> dec_saved_doc(s@) is None,
{
    proof {
        reveal_strlit("{\"state\":");
        assert("{\"state\":"@ =~= lit_saved_open());
        reveal_strlit(",\"crashed\":");
        assert(",\"crashed\":"@ =~= lit_crashed());
        reveal_strlit("}");
        assert("}"@ =~= seq!['}']);
    }
    let p0: usize = match dlit(s, 0, "{\"state\":") {
        Some(p) => p,
        None => {
            return None;
        },
    };
    let (st, p1): (EncounterState, usize) = match dstate(s, p0) {
        Some(p) => p,
        None => {
            return None;
        },
    };
    let p2: usize = match dlit(s, p1, ",\"crashed\":") {
        Some(p) => p,
        None => {
            return None;
        },
    };
    proof {
        assert(p2 <= s@.len());
    }
    let (crashed, p3): (bool, usize) = match dbool(s, p2) {
        Some(p) => p,
        None => {
            return None;
        },
    };
    let p4: usize = match dlit(s, p3, "}") {
        Some(p) => p,
        None => {
            return None;
        },
    };
    if p4 == s.len() {
        Some((st, crashed))
    } else {
        None
    }
}

/// Reading the persisted file failed under both schemas: the document is
/// not a state file.
#[derive(Debug)]
pub struct StateCorruptError;

/// The persistence envelope: the state together with a crash indicator.
#[derive(Debug, Clone, PartialEq)]
pub struct SavedState {
    /// The encounter data being persisted.
    pub state: EncounterState,
    /// Whether the session that wrote the file ended abnormally.
    pub crashed: bool,
}

impl SavedState {
    /// Renders the envelope as its canonical JSON document.
    pub fn to_json(&self) -> (r: String)
        ensures
            r@ == enc_saved(self.state@, self.crashed),
    {
        let mut out: Vec<char> = Vec::new();
        push_lit(&mut out, "{\"state\":");
        proof {
            reveal_strlit("{\"state\":");
            assert("{\"state\":"@ =~= lit_saved_open());
        }
        push_state(&mut out, &self.state);
        push_lit(&mut out, ",\"crashed\":");
        proof {
            reveal_strlit(",\"crashed\":");
            assert(",\"crashed\":"@ =~= lit_crashed());
        }
        push_bool(&mut out, self.crashed);
        out.push('}');
        proof {
            assert(out@ =~= enc_saved(self.state@, self.crashed));
        }
        chars_to_string(&out)
    }

    /// Reads a persisted document: the envelope form first, then the legacy
    /// bare-state form, which is reported for one-time migration. The second
    /// component of a successful result is true exactly when the legacy form
    /// was read. Fails, returning `StateCorruptError`, exactly when the text
    /// is neither form.
    pub fn from_json(text: &str) -> (r: Result<(SavedState, bool), StateCorruptError>)
        ensures
            dec_saved_doc(text@) matches Some(p) ==> (r matches Ok(l) && l.0.state@ == p.0
                && l.0.crashed == p.1 && l.1 == false),
            dec_saved_doc(text@) is None ==> (dec_legacy_doc(text@) matches Some(m) ==> (r matches
            Ok(l) && l.0.state@ == m && l.0.crashed == false && l.1 == true)),
            dec_saved_doc(text@) is None && dec_legacy_doc(text@) is None ==> r is Err,
    {
        let chars: Vec<char> = crate::classify::str_to_chars(text);
        match dsaved(&chars) {
            Some(p) => {
                let (state, crashed): (EncounterState, bool) = p;
                return Ok((SavedState { state, crashed }, false));
            },
            None => {},
        }
        match dstate(&chars, 0) {
            Some(p) => {
                let (state, pos): (EncounterState, usize) = p;
                if pos == chars.len() {
                    return Ok((SavedState { state, crashed: false }, true));
                }
                Err(StateCorruptError)
            },
            None => Err(StateCorruptError),
        }
    }
}


// ---------------------------------------------------------------------------
// The decoder inverts the encoder.
// ---------------------------------------------------------------------------

proof fn lemma_peel(s: Seq<char>, pos: int, a: Seq<char>, b: Seq<char>)
    requires
        0 <= pos,
        pos + a.len() + b.len() <= s.len(),
        s.subrange(pos, pos + a.len() + b.len()) == a + b,
    ensures
        s.subrange(pos, pos + a.len()) == a,
        s.subrange(pos + a.len(), pos + a.len() + b.len()) == b,
{
    assert(s.subrange(pos, pos + a.len()) =~= a) by {
        assert(forall|i: int|
            0 <= i < a.len() ==> s.subrange(pos, pos + a.len() + b.len())[i] == (a + b)[i]);
    }
    assert forall|i: int| 0 <= i < b.len() implies s.subrange(
        pos + a.len(),
        pos + a.len() + b.len(),
    )[i] == b[i] by {
        assert(s.subrange(pos, pos + a.len() + b.len())[a.len() + i] == (a + b)[a.len() + i]);
        assert(s.subrange(pos, pos + a.len() + b.len())[a.len() + i] == s[pos + a.len() + i]);
        assert((a + b)[a.len() + i] == b[i]);
        assert(s.subrange(pos + a.len(), pos + a.len() + b.len())[i] == s[pos + a.len() + i]);
    }
    assert(s.subrange(pos + a.len(), pos + a.len() + b.len()) =~= b);
}

spec fn pow10(k: int) -> int
    decreases k,
{
    if k <= 0 {
        1
    } else {
        10 * pow10(k - 1)
    }
}

proof fn lemma_pow10_pos(k: int)
    ensures
        pow10(k) >= 1,
    decreases k,
{
    if k > 0 {
        lemma_pow10_pos(k - 1);
    }
}

proof fn lemma_enc_nat_digits(n: int)
    requires
        0 <= n,
    ensures
        enc_nat(n).len() >= 1,
        forall|i: int| 0 <= i < enc_nat(n).len() ==> is_digit(#[trigger] enc_nat(n)[i]),
    decreases n,
{
    if n < 10 {
        assert((enc_nat(n)[0] as u32) == 48 + n);
    } else {
        lemma_enc_nat_digits(n / 10);
        assert((enc_nat(n)[enc_nat(n).len() - 1] as u32) == 48 + n % 10);
        assert(forall|i: int|
            0 <= i < enc_nat(n / 10).len() ==> enc_nat(n)[i] == #[trigger] enc_nat(n / 10)[i]);
    }
}

proof fn lemma_dec_digits_enc(s: Seq<char>, pos: int, acc: int, n: int)
    requires
        0 <= n,
        0 <= acc,
        0 <= pos,
        pos + enc_nat(n).len() <= s.len(),
        s.subrange(pos, pos + enc_nat(n).len()) == enc_nat(n),
        acc * pow10(enc_nat(n).len() as int) + n <= u32::MAX,
    ensures
        dec_digits(s, pos, acc) == dec_digits(
            s,
            pos + enc_nat(n).len(),
            acc * pow10(enc_nat(n).len() as int) + n,
        ),
    decreases n,
{
    lemma_enc_nat_digits(n);
    if n < 10 {
        assert(s.subrange(pos, pos + 1)[0] == s[pos]);
        assert(s[pos] == enc_nat(n)[0]);
        assert((s[pos] as u32) == 48 + n);
        assert(is_digit(s[pos]) && digit_val(s[pos]) == n);
        assert(pow10(0) == 1);
        assert(pow10(1) == 10);
        assert(acc * 10 + n <= u32::MAX);
        assert(dec_digits(s, pos, acc) == dec_digits(s, pos + 1, acc * 10 + n));
    } else {
        let h = n / 10;
        let d = n % 10;
        let l1 = enc_nat(h).len() as int;
        assert(enc_nat(n) == enc_nat(h) + seq![((48 + d) as u8) as char]);
        lemma_peel(s, pos, enc_nat(h), seq![((48 + d) as u8) as char]);
        lemma_enc_nat_digits(h);
        lemma_pow10_pos(l1);
        assert(pow10(l1 + 1) == 10 * pow10(l1));
        assert(acc * pow10(l1 + 1) + n == 10 * (acc * pow10(l1) + h) + d) by (nonlinear_arith)
            requires
                n == 10 * h + d,
                pow10(l1 + 1) == 10 * pow10(l1),
        ;
        assert(acc * pow10(l1) + h <= u32::MAX) by (nonlinear_arith)
            requires
                acc * pow10(l1 + 1) + n == 10 * (acc * pow10(l1) + h) + d,
                acc * pow10(l1 + 1) + n <= u32::MAX,
                0 <= d,
                0 <= acc,
                0 <= h,
                pow10(l1) >= 1,
        ;
        lemma_dec_digits_enc(s, pos, acc, h);
        assert(0 <= acc * pow10(l1) + h) by (nonlinear_arith)
            requires
                0 <= acc,
                0 <= h,
                pow10(l1) >= 1,
        ;
        let a2 = acc * pow10(l1) + h;
        assert(s.subrange(pos + l1, pos + l1 + 1)[0] == s[pos + l1]);
        assert((s[pos + l1] as u32) == 48 + d);
        assert(is_digit(s[pos + l1]) && digit_val(s[pos + l1]) == d);
        assert(a2 * 10 + d == acc * pow10(l1 + 1) + n);
        assert(dec_digits(s, pos + l1, a2) == dec_digits(s, pos + l1 + 1, a2 * 10 + d));
    }
}

proof fn lemma_dec_u32_enc(s: Seq<char>, pos: int, n: int)
    requires
        0 <= n <= u32::MAX,
        0 <= pos,
        pos + enc_nat(n).len() <= s.len(),
        s.subrange(pos, pos + enc_nat(n).len()) == enc_nat(n),
        pos + enc_nat(n).len() == s.len() || !is_digit(s[pos + enc_nat(n).len()]),
    ensures
        dec_u32(s, pos) == Some((n, pos + enc_nat(n).len())),
{
    lemma_enc_nat_digits(n);
    assert(s.subrange(pos, pos + enc_nat(n).len())[0] == s[pos]);
    assert(is_digit(s[pos]));
    assert(0 * pow10(enc_nat(n).len() as int) + n == n) by (nonlinear_arith);
    lemma_dec_digits_enc(s, pos, 0, n);
    assert(dec_digits(s, pos + enc_nat(n).len(), n) == Some((n, pos + enc_nat(n).len())));
}



proof fn lemma_low_char_roundtrip(c: char)
    requires
        (c as u32) < 32,
    ensures
        (((c as u32) as u8) as char) == c,
{
}

proof fn lemma_dec_body_enc(s: Seq<char>, pos: int, t: Seq<char>, i: int)
    requires
        0 <= i <= t.len(),
        0 <= pos,
        pos + enc_str_body(t, i).len() + 1 <= s.len(),
        s.subrange(pos, pos + enc_str_body(t, i).len() + 1) == enc_str_body(t, i) + seq!['"'],
    ensures
        dec_str_body(s, pos) == Some((t.skip(i), pos + enc_str_body(t, i).len() + 1)),
    decreases t.len() - i,
{
    let full = enc_str_body(t, i) + seq!['"'];
    if i == t.len() {
        assert(enc_str_body(t, i) =~= Seq::<char>::empty());
        assert(s.subrange(pos, pos + 1)[0] == s[pos]);
        assert(full[0] == '"');
        assert(t.skip(i) =~= Seq::<char>::empty());
    } else {
        let c = t[i];
        let e = esc(c);
        let b2 = enc_str_body(t, i + 1);
        assert(enc_str_body(t, i) == e + b2);
        lemma_assoc(e, b2, seq!['"']);
        assert(full == e + (b2 + seq!['"']));
        lemma_peel(s, pos, e, b2 + seq!['"']);
        lemma_dec_body_enc(s, pos + e.len(), t, i + 1);
        assert(forall|k: int|
            0 <= k < e.len() ==> #[trigger] s.subrange(pos, pos + e.len())[k] == s[pos + k]);
        if c == '"' {
            assert(s[pos] == '\\' && s[pos + 1] == '"');
            assert(unesc(s[pos + 1]) == Some('"'));
            assert(seq![c] + t.skip(i + 1) =~= t.skip(i));
        } else if c == '\\' {
            assert(s[pos] == '\\' && s[pos + 1] == '\\');
            assert(unesc(s[pos + 1]) == Some('\\'));
            assert(seq![c] + t.skip(i + 1) =~= t.skip(i));
        } else if (c as u32) < 32 {
            let cv = (c as u32) as int;
            assert(s[pos] == '\\' && s[pos + 1] == 'u' && s[pos + 2] == '0' && s[pos + 3] == '0');
            assert(s[pos + 4] == hex_char(cv / 16));
            assert(s[pos + 5] == hex_char(cv % 16));
            assert(hex_val(s[pos + 4]) == cv / 16) by {
                assert((hex_char(cv / 16) as u32) == 48 + cv / 16);
            }
            assert(hex_val(s[pos + 5]) == cv % 16) by {
                if cv % 16 < 10 {
                    assert((hex_char(cv % 16) as u32) == 48 + cv % 16);
                } else {
                    assert((hex_char(cv % 16) as u32) == 87 + cv % 16);
                }
            }
            assert(hex_val(s[pos + 4]) * 16 + hex_val(s[pos + 5]) == cv);
            lemma_low_char_roundtrip(c);
            assert((((c as u32) as u8) as char) == c);
            assert(((hex_val(s[pos + 4]) * 16 + hex_val(s[pos + 5])) as u8) == ((c as u32) as u8));
            assert((((hex_val(s[pos + 4]) * 16 + hex_val(s[pos + 5])) as u8) as char) == c);
            assert(seq![c] + t.skip(i + 1) =~= t.skip(i));
        } else {
            assert(s.subrange(pos, pos + e.len())[0] == s[pos]);
            assert(e[0] == c);
            assert(s[pos] == c);
            assert(seq![c] + t.skip(i + 1) =~= t.skip(i));
        }
    }
}

proof fn lemma_dec_string_enc(s: Seq<char>, pos: int, t: Seq<char>)
    requires
        0 <= pos,
        pos + enc_string(t).len() <= s.len(),
        s.subrange(pos, pos + enc_string(t).len()) == enc_string(t),
    ensures
        dec_string(s, pos) == Some((t, pos + enc_string(t).len())),
{
    lemma_peel(s, pos, seq!['"'], enc_str_body(t, 0) + seq!['"']);
    assert(s.subrange(pos, pos + 1)[0] == s[pos]);
    assert(s[pos] == '"');
    lemma_dec_body_enc(s, pos + 1, t, 0);
    assert(t.skip(0) =~= t);
}

proof fn lemma_dec_bool_enc(s: Seq<char>, pos: int, b: bool)
    requires
        0 <= pos,
        pos + enc_bool(b).len() <= s.len(),
        s.subrange(pos, pos + enc_bool(b).len()) == enc_bool(b),
    ensures
        dec_bool(s, pos) == Some((b, pos + enc_bool(b).len())),
{
    assert(forall|k: int|
        0 <= k < enc_bool(b).len() ==> #[trigger] s.subrange(pos, pos + enc_bool(b).len())[k]
            == s[pos + k]);
    if b {
        assert(dec_lit(s, pos, enc_bool(true)) == Some(pos + 4));
    } else {
        assert(s[pos] == 'f');
        assert(dec_lit(s, pos, enc_bool(true)) is None) by {
            if pos + 4 <= s.len() && s.subrange(pos, pos + 4) == enc_bool(true) {
                assert(s.subrange(pos, pos + 4)[0] == s[pos]);
                assert(enc_bool(true)[0] == 't');
            }
        }
        assert(dec_lit(s, pos, enc_bool(false)) == Some(pos + 5));
    }
}


proof fn lemma_dec_arr_rest_enc(s: Seq<char>, pos: int, a: Seq<Seq<char>>, i: int)
    requires
        0 <= i <= a.len(),
        0 <= pos,
        pos + enc_strings_from(a, i).len() <= s.len(),
        s.subrange(pos, pos + enc_strings_from(a, i).len()) == enc_strings_from(a, i),
    ensures
        dec_arr_rest(s, pos) == Some((a.skip(i), pos + enc_strings_from(a, i).len())),
    decreases a.len() - i,
{
    if i >= a.len() {
        assert(s.subrange(pos, pos + 1)[0] == s[pos]);
        assert(enc_strings_from(a, i)[0] == ']');
        assert(a.skip(i) =~= Seq::<Seq<char>>::empty());
    } else {
        let es = enc_string(a[i]);
        let rest = enc_strings_from(a, i + 1);
        assert(enc_strings_from(a, i) == seq![','] + (es + rest));
        lemma_peel(s, pos, seq![','], es + rest);
        lemma_peel(s, pos + 1, es, rest);
        assert(s.subrange(pos, pos + 1)[0] == s[pos]);
        assert(s[pos] == ',');
        lemma_dec_string_enc(s, pos + 1, a[i]);
        lemma_dec_arr_rest_enc(s, pos + 1 + es.len(), a, i + 1);
        assert(seq![a[i]] + a.skip(i + 1) =~= a.skip(i));
    }
}

proof fn lemma_dec_array_enc(s: Seq<char>, pos: int, a: Seq<Seq<char>>)
    requires
        0 <= pos,
        pos + enc_str_array(a).len() <= s.len(),
        s.subrange(pos, pos + enc_str_array(a).len()) == enc_str_array(a),
    ensures
        dec_str_array(s, pos) == Some((a, pos + enc_str_array(a).len())),
{
    assert(forall|k: int|
        0 <= k < enc_str_array(a).len() ==> #[trigger] s.subrange(
            pos,
            pos + enc_str_array(a).len(),
        )[k] == s[pos + k]);
    if a.len() == 0 {
        assert(s[pos] == '[' && s[pos + 1] == ']');
    } else {
        let es = enc_string(a[0]);
        let rest = enc_strings_from(a, 1);
        assert(enc_str_array(a) == seq!['['] + (es + rest));
        lemma_peel(s, pos, seq!['['], es + rest);
        lemma_peel(s, pos + 1, es, rest);
        assert(s.subrange(pos, pos + 1)[0] == s[pos]);
        assert(s[pos] == '[');
        assert(s.subrange(pos + 1, pos + 1 + es.len())[0] == s[pos + 1]);
        assert(es[0] == '"');
        assert(s[pos + 1] == '"');
        lemma_dec_string_enc(s, pos + 1, a[0]);
        lemma_dec_arr_rest_enc(s, pos + 1 + es.len(), a, 1);
        assert(seq![a[0]] + a.skip(1) =~= a);
    }
}

proof fn lemma_stats_from_first(st: Seq<(Seq<char>, u32)>, i: int)
    ensures
        enc_stats_from(st, i).len() >= 1,
        enc_stats_from(st, i)[0] == ',' || enc_stats_from(st, i)[0] == '}',
{
    if !(i < 0 || i >= st.len()) {
        assert(enc_stats_from(st, i)[0] == ',');
    }
}

proof fn lemma_dec_stats_entry_enc(s: Seq<char>, pos: int, p: (Seq<char>, u32))
    requires
        0 <= pos,
        pos + enc_stats_entry(p).len() <= s.len(),
        s.subrange(pos, pos + enc_stats_entry(p).len()) == enc_stats_entry(p),
        pos + enc_stats_entry(p).len() == s.len() || !is_digit(
            s[pos + enc_stats_entry(p).len()],
        ),
    ensures
        dec_stats_entry(s, pos) == Some((p, pos + enc_stats_entry(p).len())),
{
    let es = enc_string(p.0);
    let num = enc_nat(p.1 as int);
    assert(enc_stats_entry(p) == es + (seq![':'] + num));
    lemma_peel(s, pos, es, seq![':'] + num);
    lemma_peel(s, pos + es.len(), seq![':'], num);
    lemma_dec_string_enc(s, pos, p.0);
    let ps = pos + es.len();
    assert(s.subrange(ps, ps + 1)[0] == s[ps]);
    assert(s[ps] == ':');
    lemma_dec_u32_enc(s, ps + 1, p.1 as int);
    assert((p.1 as int) as u32 == p.1);
}

proof fn lemma_dec_stats_rest_enc(s: Seq<char>, pos: int, st: Seq<(Seq<char>, u32)>, i: int)
    requires
        0 <= i <= st.len(),
        0 <= pos,
        pos + enc_stats_from(st, i).len() <= s.len(),
        s.subrange(pos, pos + enc_stats_from(st, i).len()) == enc_stats_from(st, i),
    ensures
        dec_stats_rest(s, pos) == Some((st.skip(i), pos + enc_stats_from(st, i).len())),
    decreases st.len() - i,
{
    if i >= st.len() {
        assert(s.subrange(pos, pos + 1)[0] == s[pos]);
        assert(enc_stats_from(st, i)[0] == '}');
        assert(st.skip(i) =~= Seq::<(Seq<char>, u32)>::empty());
    } else {
        let ee = enc_stats_entry(st[i]);
        let rest = enc_stats_from(st, i + 1);
        assert(enc_stats_from(st, i) == seq![','] + (ee + rest));
        lemma_peel(s, pos, seq![','], ee + rest);
        lemma_peel(s, pos + 1, ee, rest);
        assert(s.subrange(pos, pos + 1)[0] == s[pos]);
        assert(s[pos] == ',');
        lemma_stats_from_first(st, i + 1);
        assert(s.subrange(pos + 1 + ee.len(), pos + 1 + ee.len() + rest.len())[0] == s[pos + 1
            + ee.len()]);
        assert(s[pos + 1 + ee.len()] == ',' || s[pos + 1 + ee.len()] == '}');
        assert(!is_digit(s[pos + 1 + ee.len()]));
        lemma_dec_stats_entry_enc(s, pos + 1, st[i]);
        lemma_dec_stats_rest_enc(s, pos + 1 + ee.len(), st, i + 1);
        assert(seq![st[i]] + st.skip(i + 1) =~= st.skip(i));
    }
}

proof fn lemma_dec_stats_obj_enc(s: Seq<char>, pos: int, st: Seq<(Seq<char>, u32)>)
    requires
        0 <= pos,
        pos + enc_stats(st).len() <= s.len(),
        s.subrange(pos, pos + enc_stats(st).len()) == enc_stats(st),
    ensures
        dec_stats_obj(s, pos) == Some((st, pos + enc_stats(st).len())),
{
    assert(forall|k: int|
        0 <= k < enc_stats(st).len() ==> #[trigger] s.subrange(pos, pos + enc_stats(st).len())[k]
            == s[pos + k]);
    if st.len() == 0 {
        assert(s[pos] == '{' && s[pos + 1] == '}');
    } else {
        let ee = enc_stats_entry(st[0]);
        let rest = enc_stats_from(st, 1);
        assert(enc_stats(st) == seq!['{'] + (ee + rest));
        lemma_peel(s, pos, seq!['{'], ee + rest);
        lemma_peel(s, pos + 1, ee, rest);
        assert(s.subrange(pos, pos + 1)[0] == s[pos]);
        assert(s[pos] == '{');
        assert(s.subrange(pos + 1, pos + 1 + ee.len())[0] == s[pos + 1]);
        assert(enc_string(st[0].0)[0] == '"');
        assert(ee[0] == '"');
        assert(s[pos + 1] == '"');
        lemma_stats_from_first(st, 1);
        assert(s.subrange(pos + 1 + ee.len(), pos + 1 + ee.len() + rest.len())[0] == s[pos + 1
            + ee.len()]);
        assert(s[pos + 1 + ee.len()] == ',' || s[pos + 1 + ee.len()] == '}');
        assert(!is_digit(s[pos + 1 + ee.len()]));
        lemma_dec_stats_entry_enc(s, pos + 1, st[0]);
        lemma_dec_stats_rest_enc(s, pos + 1 + ee.len(), st, 1);
        assert(seq![st[0]] + st.skip(1) =~= st);
    }
}


#[verifier::rlimit(100)]
#[verifier::spinoff_prover]
proof fn lemma_dec_state_enc(s: Seq<char>, pos: int, m: StateModel)
    requires
        0 <= pos,
        pos + enc_state(m).len() <= s.len(),
        s.subrange(pos, pos + enc_state(m).len()) == enc_state(m),
    ensures
        dec_state(s, pos) == Some((m, pos + enc_state(m).len())),
{
    let p1 = lit_state_open();
    let p2 = enc_nat(m.encounters as int);
    let p3 = lit_last();
    let p4 = enc_str_array(m.last_encounter);
    let p5 = lit_stats();
    let p6 = enc_stats(m.mon_stats);
    let p7 = lit_debug();
    let p8 = enc_bool(m.debug);
    let p9 = lit_in_encounter();
    let p10 = enc_bool(m.in_encounter);
    let p11 = lit_is_not_counted();
    let p12 = enc_bool(m.is_not_counted);
    let p13 = lit_unsaved();
    let p14 = enc_nat(m.unsaved_encounters as int);
    let p15 = seq!['}'];
    let r15 = p15;
    let r14 = p14 + r15;
    let r13 = p13 + r14;
    let r12 = p12 + r13;
    let r11 = p11 + r12;
    let r10 = p10 + r11;
    let r9 = p9 + r10;
    let r8 = p8 + r9;
    let r7 = p7 + r8;
    let r6 = p6 + r7;
    let r5 = p5 + r6;
    let r4 = p4 + r5;
    let r3 = p3 + r4;
    let r2 = p2 + r3;
    assert(enc_state(m) == p1 + r2);
    lemma_peel(s, pos, p1, r2);
    let q1 = pos + p1.len();
    assert(dec_lit(s, pos, p1) == Some(q1));
    lemma_peel(s, q1, p2, r3);
    let q2 = q1 + p2.len();
    assert(s.subrange(q2, q2 + r3.len())[0] == s[q2]);
    assert(r3[0] == p3[0]);
    assert(p3[0] == ',');
    assert(!is_digit(s[q2]));
    lemma_dec_u32_enc(s, q1, m.encounters as int);
    lemma_peel(s, q2, p3, r4);
    let q3 = q2 + p3.len();
    assert(dec_lit(s, q2, p3) == Some(q3));
    lemma_peel(s, q3, p4, r5);
    let q4 = q3 + p4.len();
    lemma_dec_array_enc(s, q3, m.last_encounter);
    lemma_peel(s, q4, p5, r6);
    let q5 = q4 + p5.len();
    assert(dec_lit(s, q4, p5) == Some(q5));
    lemma_peel(s, q5, p6, r7);
    let q6 = q5 + p6.len();
    lemma_dec_stats_obj_enc(s, q5, m.mon_stats);
    lemma_peel(s, q6, p7, r8);
    let q7 = q6 + p7.len();
    assert(dec_lit(s, q6, p7) == Some(q7));
    lemma_peel(s, q7, p8, r9);
    let q8 = q7 + p8.len();
    lemma_dec_bool_enc(s, q7, m.debug);
    lemma_peel(s, q8, p9, r10);
    let q9 = q8 + p9.len();
    assert(dec_lit(s, q8, p9) == Some(q9));
    lemma_peel(s, q9, p10, r11);
    let q10 = q9 + p10.len();
    lemma_dec_bool_enc(s, q9, m.in_encounter);
    lemma_peel(s, q10, p11, r12);
    let q11 = q10 + p11.len();
    assert(dec_lit(s, q10, p11) == Some(q11));
    lemma_peel(s, q11, p12, r13);
    let q12 = q11 + p12.len();
    lemma_dec_bool_enc(s, q11, m.is_not_counted);
    lemma_peel(s, q12, p13, r14);
    let q13 = q12 + p13.len();
    assert(dec_lit(s, q12, p13) == Some(q13));
    lemma_peel(s, q13, p14, r15);
    let q14 = q13 + p14.len();
    assert(s.subrange(q14, q14 + 1)[0] == s[q14]);
    assert(s[q14] == '}');
    assert(!is_digit(s[q14]));
    lemma_dec_u32_enc(s, q13, m.unsaved_encounters as int);
    let q15 = q14 + 1;
    assert(dec_lit(s, q14, seq!['}']) == Some(q15));
    assert((m.encounters as int) as u32 == m.encounters);
    assert((m.unsaved_encounters as int) as u32 == m.unsaved_encounters);
    assert(q15 == pos + enc_state(m).len());
    assert(dec_state(s, pos) == Some((m, q15)));
}

/// Round trip of the envelope: a document saved for a state and a crash
/// flag always reads back as exactly that state and flag.
#[verifier::rlimit(100)]
#[verifier::spinoff_prover]
pub proof fn lemma_saved_round_trip(m: StateModel, crashed: bool)
    ensures
        dec_saved_doc(enc_saved(m, crashed)) == Some((m, crashed)),
{
    let s = enc_saved(m, crashed);
    let p1 = lit_saved_open();
    let p2 = enc_state(m);
    let p3 = lit_crashed();
    let p4 = enc_bool(crashed);
    let p5 = seq!['}'];
    let r5 = p5;
    let r4 = p4 + r5;
    let r3 = p3 + r4;
    let r2 = p2 + r3;
    assert(s == p1 + r2);
    assert(s.subrange(0, s.len() as int) =~= s);
    lemma_peel(s, 0, p1, r2);
    let q1 = p1.len() as int;
    assert(dec_lit(s, 0, p1) == Some(q1));
    lemma_peel(s, q1, p2, r3);
    let q2 = q1 + p2.len();
    lemma_dec_state_enc(s, q1, m);
    lemma_peel(s, q2, p3, r4);
    let q3 = q2 + p3.len();
    assert(dec_lit(s, q2, p3) == Some(q3));
    lemma_peel(s, q3, p4, r5);
    let q4 = q3 + p4.len();
    lemma_dec_bool_enc(s, q3, crashed);
    let q5 = q4 + 1;
    assert(dec_lit(s, q4, seq!['}']) == Some(q5));
    assert(q5 == s.len());
}

/// A legacy document, a bare state object, is never read as an envelope,
/// and the legacy reader yields exactly the state it encodes.
#[verifier::spinoff_prover]
proof fn lemma_state_doc_not_envelope(m: StateModel)
    ensures
        dec_lit(enc_state(m), 0, lit_saved_open()) is None,
{
    let s = enc_state(m);
    assert(s[2] == lit_state_open()[2]) by {
        assert(s == lit_state_open() + (enc_nat(m.encounters as int) + (lit_last() + (
        enc_str_array(m.last_encounter) + (lit_stats() + (enc_stats(m.mon_stats) + (lit_debug() + (
        enc_bool(m.debug) + (lit_in_encounter() + (enc_bool(m.in_encounter) + (lit_is_not_counted()
            + (enc_bool(m.is_not_counted) + (lit_unsaved() + (enc_nat(m.unsaved_encounters as int)
            + seq!['}']))))))))))))));
    }
    assert(s[2] == 'e');
    if 0 + lit_saved_open().len() <= s.len() && s.subrange(0, lit_saved_open().len() as int)
        == lit_saved_open() {
        assert(s.subrange(0, lit_saved_open().len() as int)[2] == s[2]);
        assert(lit_saved_open()[2] == 's');
        assert(false);
    }
}

/// A legacy document, a bare state object, is never read as an envelope,
/// and the legacy reader yields exactly the state it encodes.
#[verifier::rlimit(100)]
#[verifier::spinoff_prover]
pub proof fn lemma_legacy_round_trip(m: StateModel)
    ensures
        dec_saved_doc(enc_state(m)) is None,
        dec_legacy_doc(enc_state(m)) == Some(m),
{
    let s = enc_state(m);
    lemma_state_doc_not_envelope(m);
    assert(dec_saved_doc(s) is None);
    assert(s.subrange(0, s.len() as int) =~= s);
    lemma_dec_state_enc(s, 0, m);
    assert(dec_legacy_doc(s) == Some(m));
}

} // verus!
