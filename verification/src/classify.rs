//! Lexical classification of recognized text lines: detection of the
//! wild-encounter trigger phrase and extraction of species tokens that
//! stand immediately before a level-marker token.
//!
//! All comparisons are made on lower-cased text. Lower-casing is done by
//! the standard library; its result is named `lower_of` and every contract
//! here speaks of the lines through that name.

use vstd::prelude::*;

verus! {

/// The lower-cased form of a text, as `str::to_lowercase` computes it.
pub uninterp spec fn lower_of(s: Seq<char>) -> Seq<char>;

/// Relies on `str::to_lowercase`: returns the lowercase equivalent of the
/// text, a function of the characters alone. Never panics.
#[verifier::external_body]
fn lowercase(s: &str) -> (r: String)
    ensures
        r@ == lower_of(s@),
{
    s.to_lowercase()
}

/// Collects the characters of a string slice, in order.
pub fn str_to_chars(s: &str) -> (v: Vec<char>)
    ensures
        v@ == s@,
{
    let n: usize = s.unicode_len();
    let mut v: Vec<char> = Vec::new();
    let mut i: usize = 0;
    while i < n
        invariant
            i <= n,
            n == s@.len(),
            v@ == s@.subrange(0, i as int),
        decreases n - i,
    {
        v.push(s.get_char(i));
        i = i + 1;
        proof {
            assert(v@ =~= s@.subrange(0, i as int));
        }
    }
    proof {
        assert(v@ =~= s@);
    }
    v
}

/// The needle occurs in `hay` starting at position `k`.
pub open spec fn matches_at(hay: Seq<char>, needle: Seq<char>, k: int) -> bool {
    0 <= k && k + needle.len() <= hay.len() && hay.subrange(k, k + needle.len()) == needle
}

/// The needle occurs somewhere in `hay`.
pub open spec fn contains_seq(hay: Seq<char>, needle: Seq<char>) -> bool {
    exists|k: int| matches_at(hay, needle, k)
}

/// Substring search: does `needle` occur anywhere in `hay`?
fn seq_contains(hay: &Vec<char>, needle: &Vec<char>) -> (r: bool)
    ensures
        r == contains_seq(hay@, needle@),
{
    let nlen: usize = needle.len();
    let hlen: usize = hay.len();
    if nlen == 0 {
        proof {
            assert(hay@.subrange(0, 0) =~= needle@);
            assert(matches_at(hay@, needle@, 0));
        }
        return true;
    }
    if nlen > hlen {
        proof {
            assert(forall|k: int| !matches_at(hay@, needle@, k));
        }
        return false;
    }
    let mut k: usize = 0;
    while k <= hlen - nlen
        invariant
            1 <= nlen <= hlen,
            nlen == needle@.len(),
            hlen == hay@.len(),
            k <= hlen - nlen + 1,
            forall|kk: int| 0 <= kk < k ==> !matches_at(hay@, needle@, kk),
        decreases hlen - nlen - k + 1,
    {
        let mut j: usize = 0;
        let mut mismatch: bool = false;
        while j < nlen && !mismatch
            invariant
                nlen == needle@.len(),
                hlen == hay@.len(),
                k + nlen <= hlen,
                j <= nlen,
                !mismatch ==> forall|t: int| 0 <= t < j ==> hay@[k + t] == needle@[t],
                mismatch ==> !matches_at(hay@, needle@, k as int),
            decreases (nlen - j) + (if mismatch { 0int } else { 1int }),
        {
            if hay[k + j] != needle[j] {
                proof {
                    if matches_at(hay@, needle@, k as int) {
                        assert(hay@.subrange(k as int, k + nlen)[j as int] == needle@[j as int]);
                    }
                }
                mismatch = true;
            } else {
                j = j + 1;
            }
        }
        if !mismatch {
            proof {
                assert(forall|t: int|
                    0 <= t < nlen ==> #[trigger] hay@.subrange(k as int, k + nlen)[t] == hay@[k
                        + t]);
                assert(hay@.subrange(k as int, k + nlen) =~= needle@);
                assert(matches_at(hay@, needle@, k as int));
            }
            return true;
        }
        k = k + 1;
    }
    proof {
        assert(forall|kk: int| k <= kk ==> !matches_at(hay@, needle@, kk));
    }
    false
}

/// The trigger phrase that signals a wild encounter.
pub open spec fn wild_phrase() -> Seq<char> {
    seq!['a', ' ', 'w', 'i', 'l', 'd']
}

/// The lower-cased line contains the trigger phrase.
pub open spec fn line_has_wild(line: Seq<char>) -> bool {
    contains_seq(lower_of(line), wild_phrase())
}

/// Some line of the sequence, lower-cased, contains the trigger phrase.
pub open spec fn has_wild(lines: Seq<Seq<char>>) -> bool {
    exists|i: int| 0 <= i < lines.len() && line_has_wild(lines[i])
}

/// True iff any line, lower-cased, contains the substring "a wild".
pub fn has_wild_trigger(lines: &Vec<String>) -> (r: bool)
    ensures
        r == has_wild(lines.deep_view()),
{
    let needle: Vec<char> = vec!['a', ' ', 'w', 'i', 'l', 'd'];
    proof {
        assert(needle@ =~= wild_phrase());
    }
    let mut i: usize = 0;
    while i < lines.len()
        invariant
            i <= lines.len(),
            needle@ == wild_phrase(),
            forall|j: int| 0 <= j < i ==> !line_has_wild(lines.deep_view()[j]),
        decreases lines.len() - i,
    {
        proof {
            assert(lines.deep_view()[i as int] == lines@[i as int]@);
        }
        let low: String = lowercase(lines[i].as_str());
        let low_chars: Vec<char> = str_to_chars(low.as_str());
        if seq_contains(&low_chars, &needle) {
            return true;
        }
        i = i + 1;
    }
    false
}

/// A character that separates tokens.
pub open spec fn is_space(c: char) -> bool {
    c == ' ' || c == '\t' || c == '\n' || c == '\r' || c == '\u{b}' || c == '\u{c}'
}

/// Position just past the token that starts at `pos`: the first position at
/// or after `pos` that holds a space, or the end of the text.
pub open spec fn token_end(s: Seq<char>, pos: int) -> int
    decreases s.len() - pos,
{
    if pos < 0 || pos >= s.len() || is_space(s[pos]) {
        pos
    } else {
        token_end(s, pos + 1)
    }
}

/// A token's end lies between its start and the end of the text.
pub proof fn lemma_token_end_bounds(s: Seq<char>, pos: int)
    requires
        0 <= pos <= s.len(),
    ensures
        pos <= token_end(s, pos) <= s.len(),
    decreases s.len() - pos,
{
    if pos < s.len() && !is_space(s[pos]) {
        lemma_token_end_bounds(s, pos + 1);
    }
}

/// A token that starts on a non-space character is at least one long.
pub proof fn lemma_token_end_progress(s: Seq<char>, pos: int)
    requires
        0 <= pos < s.len(),
        !is_space(s[pos]),
    ensures
        pos < token_end(s, pos) <= s.len(),
{
    lemma_token_end_bounds(s, pos + 1);
}

/// The whitespace-separated tokens of `s`, from position `pos` on.
pub open spec fn tokens_from(s: Seq<char>, pos: int) -> Seq<Seq<char>>
    decreases s.len() - pos,
{
    if pos < 0 || pos >= s.len() {
        Seq::empty()
    } else if is_space(s[pos]) {
        tokens_from(s, pos + 1)
    } else {
        proof {
            lemma_token_end_progress(s, pos);
        }
        seq![s.subrange(pos, token_end(s, pos))] + tokens_from(s, token_end(s, pos))
    }
}

/// The whitespace-separated tokens of `s`.
pub open spec fn tokens_of(s: Seq<char>) -> Seq<Seq<char>> {
    tokens_from(s, 0)
}

/// A level-marker token: one that begins with "lv.", "nv." or "niv.".
pub open spec fn is_marker_token(t: Seq<char>) -> bool {
    (t.len() >= 3 && t[0] == 'l' && t[1] == 'v' && t[2] == '.') || (t.len() >= 3 && t[0] == 'n'
        && t[1] == 'v' && t[2] == '.') || (t.len() >= 4 && t[0] == 'n' && t[1] == 'i' && t[2] == 'v'
        && t[3] == '.')
}

/// Species named by the token pairs of `toks` from index `i` on: a token of
/// length greater than one whose successor is a level marker.
pub open spec fn pair_species(toks: Seq<Seq<char>>, i: int) -> Seq<Seq<char>>
    decreases toks.len() - i,
{
    if i < 0 || i + 1 >= toks.len() {
        Seq::empty()
    } else if is_marker_token(toks[i + 1]) && toks[i].len() > 1 {
        seq![toks[i]] + pair_species(toks, i + 1)
    } else {
        pair_species(toks, i + 1)
    }
}

/// The species tokens of one line: the line is lower-cased, split on
/// whitespace, and every token of length greater than one that stands
/// immediately before a level-marker token is a species.
pub open spec fn line_species(line: Seq<char>) -> Seq<Seq<char>> {
    pair_species(tokens_of(lower_of(line)), 0)
}

/// The species tokens of a line sequence, in line order then token order;
/// duplicates are preserved.
pub open spec fn species_of(lines: Seq<Seq<char>>) -> Seq<Seq<char>>
    decreases lines.len(),
{
    if lines.len() == 0 {
        Seq::empty()
    } else {
        line_species(lines[0]) + species_of(lines.drop_first())
    }
}

/// Splits `chars` into its whitespace-separated tokens, each given as a
/// half-open index range.
fn tokenize(chars: &Vec<char>) -> (toks: Vec<(usize, usize)>)
    ensures
        forall|j: int|
            0 <= j < toks@.len() ==> 0 <= #[trigger] toks@[j].0 < toks@[j].1 <= chars@.len(),
        toks@.map_values(|p: (usize, usize)| chars@.subrange(p.0 as int, p.1 as int)) == tokens_of(
            chars@,
        ),
{
    let len: usize = chars.len();
    let mut toks: Vec<(usize, usize)> = Vec::new();
    let mut pos: usize = 0;
    while pos < len
        invariant
            pos <= len,
            len == chars@.len(),
            forall|j: int|
                0 <= j < toks@.len() ==> 0 <= #[trigger] toks@[j].0 < toks@[j].1 <= chars@.len(),
            tokens_of(chars@) == toks@.map_values(
                |p: (usize, usize)| chars@.subrange(p.0 as int, p.1 as int),
            ) + tokens_from(chars@, pos as int),
        decreases len - pos,
    {
        if is_space_exec(chars[pos]) {
            pos = pos + 1;
        } else {
            let start: usize = pos;
            let mut e: usize = pos;
            while e < len && !is_space_exec_at(chars, e)
                invariant
                    pos <= e <= len,
                    len == chars@.len(),
                    token_end(chars@, pos as int) == token_end(chars@, e as int),
                decreases len - e,
            {
                e = e + 1;
            }
            proof {
                assert(token_end(chars@, e as int) == e);
                assert(token_end(chars@, pos as int) == e);
                lemma_token_end_progress(chars@, pos as int);
            }
            let ghost old_mapped = toks@.map_values(
                |p: (usize, usize)| chars@.subrange(p.0 as int, p.1 as int),
            );
            toks.push((start, e));
            proof {
                assert(toks@.map_values(
                    |p: (usize, usize)| chars@.subrange(p.0 as int, p.1 as int),
                ) =~= old_mapped + seq![chars@.subrange(start as int, e as int)]);
            }
            pos = e;
        }
    }
    toks
}

fn is_space_exec(c: char) -> (r: bool)
    ensures
        r == is_space(c),
{
    c == ' ' || c == '\t' || c == '\n' || c == '\r' || c == '\u{b}' || c == '\u{c}'
}

fn is_space_exec_at(chars: &Vec<char>, i: usize) -> (r: bool)
    requires
        i < chars@.len(),
    ensures
        r == is_space(chars@[i as int]),
{
    is_space_exec(chars[i])
}

/// Does the token at index range `[st, en)` of `chars` begin with a level
/// marker?
fn marker_at(chars: &Vec<char>, st: usize, en: usize) -> (r: bool)
    requires
        st <= en <= chars@.len(),
    ensures
        r == is_marker_token(chars@.subrange(st as int, en as int)),
{
    proof {
        assert(forall|t: int|
            0 <= t < en - st ==> #[trigger] chars@.subrange(st as int, en as int)[t] == chars@[st
                + t]);
    }
    let n: usize = en - st;
    (n >= 3 && chars[st] == 'l' && chars[st + 1] == 'v' && chars[st + 2] == '.') || (n >= 3
        && chars[st] == 'n' && chars[st + 1] == 'v' && chars[st + 2] == '.') || (n >= 4
        && chars[st] == 'n' && chars[st + 1] == 'i' && chars[st + 2] == 'v' && chars[st + 3] == '.')
}

/// The species tokens of one already lower-cased line.
fn species_of_line(low: &String) -> (out: Vec<String>)
    ensures
        out.deep_view() == pair_species(tokens_of(low@), 0),
{
    let chars: Vec<char> = str_to_chars(low.as_str());
    let toks: Vec<(usize, usize)> = tokenize(&chars);
    let ghost toks_v = toks@.map_values(
        |p: (usize, usize)| chars@.subrange(p.0 as int, p.1 as int),
    );
    let mut out: Vec<String> = Vec::new();
    proof {
        assert(out.deep_view() =~= Seq::<Seq<char>>::empty());
    }
    if toks.len() < 2 {
        return out;
    }
    let mut i: usize = 0;
    while i + 1 < toks.len()
        invariant
            i + 1 <= toks@.len(),
            toks_v == toks@.map_values(
                |p: (usize, usize)| chars@.subrange(p.0 as int, p.1 as int),
            ),
            toks_v.len() == toks@.len(),
            chars@ == low@,
            forall|j: int|
                0 <= j < toks@.len() ==> 0 <= #[trigger] toks@[j].0 < toks@[j].1 <= chars@.len(),
            pair_species(toks_v, 0) == out.deep_view() + pair_species(toks_v, i as int),
        decreases toks@.len() - i,
    {
        proof {
            assert(toks_v[i as int] == chars@.subrange(toks@[i as int].0 as int, toks@[i as int].1 as int));
            assert(toks_v[i + 1] == chars@.subrange(toks@[i + 1 as int].0 as int, toks@[i + 1 as int].1 as int));
        }
        let (st0, en0): (usize, usize) = toks[i];
        let (st1, en1): (usize, usize) = toks[i + 1];
        if marker_at(&chars, st1, en1) && en0 - st0 > 1 {
            let tok: &str = low.as_str().substring_char(st0, en0);
            let ghost old_dv = out.deep_view();
            out.push(String::from_str(tok));
            proof {
                assert(out.deep_view() =~= old_dv + seq![chars@.subrange(st0 as int, en0 as int)]);
            }
        }
        i = i + 1;
    }
    proof {
        assert(pair_species(toks_v, i as int) =~= Seq::<Seq<char>>::empty());
        assert(out.deep_view() =~= pair_species(toks_v, 0));
    }
    out
}

/// For every line, in order: the lower-cased line is split on whitespace and
/// every token of length greater than one that stands immediately before a
/// level-marker token ("lv.", "nv.", "niv.") is emitted as a species name.
/// Duplicates are preserved.
pub fn extract_species(lines: &Vec<String>) -> (r: Vec<String>)
    ensures
        r.deep_view() == species_of(lines.deep_view()),
{
    let ghost full = lines.deep_view();
    let mut out: Vec<String> = Vec::new();
    proof {
        assert(out.deep_view() =~= Seq::<Seq<char>>::empty());
        assert(full.skip(0) =~= full);
    }
    let mut i: usize = 0;
    while i < lines.len()
        invariant
            i <= lines.len(),
            full == lines.deep_view(),
            full.len() == lines@.len(),
            species_of(full) == out.deep_view() + species_of(full.skip(i as int)),
        decreases lines.len() - i,
    {
        proof {
            assert(full[i as int] == lines@[i as int]@);
        }
        let low: String = lowercase(lines[i].as_str());
        let mut line_out: Vec<String> = species_of_line(&low);
        let ghost old_dv = out.deep_view();
        let ghost line_dv = line_out.deep_view();
        out.append(&mut line_out);
        proof {
            assert(out.deep_view() =~= old_dv + line_dv);
            assert(full.skip(i as int).drop_first() =~= full.skip(i + 1));
            assert(full.skip(i as int)[0] == full[i as int]);
            assert(species_of(full.skip(i as int)) == line_species(full[i as int]) + species_of(
                full.skip(i + 1),
            ));
            assert(species_of(full) =~= out.deep_view() + species_of(full.skip(i + 1)));
        }
        i = i + 1;
    }
    proof {
        assert(full.skip(full.len() as int) =~= Seq::<Seq<char>>::empty());
        assert(out.deep_view() =~= species_of(full));
    }
    out
}


/// The process name of the game this counter watches.
pub open spec fn game_name() -> Seq<char> {
    seq!['p', 'o', 'k', 'e', 'm', 'm', 'o']
}

/// The runtime the game often appears under instead.
pub open spec fn runtime_name() -> Seq<char> {
    seq!['j', 'a', 'v', 'a']
}

/// The window belongs to the game: its application name or its title,
/// lower-cased, is the game's name or the runtime's.
pub open spec fn names_match(app_name: Seq<char>, title: Seq<char>) -> bool {
    lower_of(app_name) == game_name() || lower_of(app_name) == runtime_name() || lower_of(title)
        == game_name() || lower_of(title) == runtime_name()
}

/// Compares collected characters with the text of a string slice.
fn chars_eq(v: &Vec<char>, lit: &str) -> (r: bool)
    ensures
        r == (v@ == lit@),
{
    let n: usize = lit.unicode_len();
    if v.len() != n {
        return false;
    }
    let mut i: usize = 0;
    while i < n
        invariant
            i <= n,
            n == lit@.len(),
            v@.len() == n,
            forall|t: int| 0 <= t < i ==> v@[t] == lit@[t],
        decreases n - i,
    {
        if v[i] != lit.get_char(i) {
            return false;
        }
        i = i + 1;
    }
    proof {
        assert(v@ =~= lit@);
    }
    true
}

/// Decides from a window's application name and title whether the window
/// belongs to the game: either, lower-cased, must equal "pokemmo" or
/// "java".
pub fn game_exist(app_name: &str, title: &str) -> (r: bool)
    ensures
        r == names_match(app_name@, title@),
{
    proof {
        reveal_strlit("pokemmo");
        assert("pokemmo"@ =~= game_name());
        reveal_strlit("java");
        assert("java"@ =~= runtime_name());
    }
    let low_name: String = lowercase(app_name);
    let name_chars: Vec<char> = str_to_chars(low_name.as_str());
    let low_title: String = lowercase(title);
    let title_chars: Vec<char> = str_to_chars(low_title.as_str());
    chars_eq(&name_chars, "pokemmo") || chars_eq(&name_chars, "java") || chars_eq(
        &title_chars,
        "pokemmo",
    ) || chars_eq(&title_chars, "java")
}

} // verus!
