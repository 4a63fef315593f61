//! Character and string helpers shared by the other modules.
//!
//! All functions here operate on character offsets (Unicode scalar values),
//! never on byte offsets, except where a function's very purpose is to
//! translate between the two.

use vstd::prelude::*;

verus! {

/// Number of bytes the UTF-8 encoding of `c` occupies.
pub open spec fn utf8_len_of(c: char) -> int {
    let u = c as u32;
    if u < 0x80 {
        1
    } else if u < 0x800 {
        2
    } else if u < 0x10000 {
        3
    } else {
        4
    }
}

/// Executable counterpart of [`utf8_len_of`].
pub fn char_utf8_len(c: char) -> (n: usize)
    ensures
        n == utf8_len_of(c),
        1 <= n <= 4,
{
    let u = c as u32;
    if u < 0x80 {
        1
    } else if u < 0x800 {
        2
    } else if u < 0x10000 {
        3
    } else {
        4
    }
}

/// Total number of bytes of the UTF-8 encoding of `s`.
pub open spec fn byte_len_of(s: Seq<char>) -> int
    decreases s.len(),
{
    if s.len() == 0 {
        0
    } else {
        byte_len_of(s.drop_last()) + utf8_len_of(s.last())
    }
}

/// Extending a character prefix by one character adds that character's width.
pub proof fn lemma_byte_len_take_step(s: Seq<char>, i: int)
    requires
        0 <= i < s.len(),
    ensures
        byte_len_of(s.take(i + 1)) == byte_len_of(s.take(i)) + utf8_len_of(s[i]),
{
    assert(s.take(i + 1).drop_last() =~= s.take(i));
    assert(s.take(i + 1).last() == s[i]);
}

/// Unfolding [`byte_len_of`] from the front instead of the back.
pub proof fn lemma_byte_len_front(s: Seq<char>)
    requires
        s.len() > 0,
    ensures
        byte_len_of(s) == utf8_len_of(s[0]) + byte_len_of(s.drop_first()),
    decreases s.len(),
{
    if s.len() == 1 {
        assert(s.drop_last() =~= Seq::<char>::empty());
        assert(s.drop_first() =~= Seq::<char>::empty());
    } else {
        lemma_byte_len_front(s.drop_last());
        assert(s.drop_last()[0] == s[0]);
        assert(s.drop_last().drop_first() =~= s.drop_first().drop_last());
        assert(s.drop_first().last() == s.last());
    }
}

/// [`utf8_len_of`] agrees with the width of vstd's UTF-8 scalar encoding.
pub proof fn lemma_encode_scalar_len(c: char)
    ensures
        vstd::utf8::encode_scalar(c as u32).len() == utf8_len_of(c),
{
    vstd::utf8::char_is_scalar(c);
}

/// [`byte_len_of`] agrees with the length of vstd's UTF-8 encoding, and so
/// with `str::len` on the underlying text.
pub proof fn lemma_byte_len_encode(s: Seq<char>)
    ensures
        byte_len_of(s) == vstd::utf8::encode_utf8(s).len(),
    decreases s.len(),
{
    if s.len() > 0 {
        lemma_byte_len_encode(s.drop_first());
        lemma_encode_scalar_len(s[0]);
        lemma_byte_len_front(s);
    }
}

/// Byte lengths of prefixes never exceed the whole text's byte length.
pub proof fn lemma_byte_len_take_le(s: Seq<char>, i: int)
    requires
        0 <= i <= s.len(),
    ensures
        byte_len_of(s.take(i)) <= byte_len_of(s),
    decreases s.len() - i,
{
    if i == s.len() {
        assert(s.take(i) =~= s);
    } else {
        lemma_byte_len_take_step(s, i);
        lemma_byte_len_take_le(s, i + 1);
    }
}

/// String equality at the level of character sequences.
pub fn str_eq(a: &str, b: &str) -> (r: bool)
    ensures
        r == (a@ == b@),
{
    let sa = a.to_owned();
    let sb = b.to_owned();
    sa == sb
}

/// `needle` occurs in `hay` starting at character offset `i`.
pub open spec fn is_sub_at(hay: Seq<char>, needle: Seq<char>, i: int) -> bool {
    0 <= i && i + needle.len() <= hay.len() && hay.subrange(i, i + needle.len()) == needle
}

/// First occurrence of `needle` in `hay` at offset `i` or later.
pub open spec fn find_from(hay: Seq<char>, needle: Seq<char>, i: int) -> Option<int>
    decreases hay.len() - i,
{
    if i < 0 || i + needle.len() > hay.len() {
        None
    } else if is_sub_at(hay, needle, i) {
        Some(i)
    } else if i + needle.len() == hay.len() {
        None
    } else {
        find_from(hay, needle, i + 1)
    }
}

/// Character offset of the first occurrence of `needle` in `hay`, if any.
pub open spec fn find_sub_spec(hay: Seq<char>, needle: Seq<char>) -> Option<int> {
    find_from(hay, needle, 0)
}

pub proof fn lemma_find_from_props(hay: Seq<char>, needle: Seq<char>, i: int)
    requires
        0 <= i,
    ensures
        match find_from(hay, needle, i) {
            Some(j) => i <= j && is_sub_at(hay, needle, j) && (forall|k: int|
                i <= k < j ==> !is_sub_at(hay, needle, k)),
            None => forall|k: int| i <= k ==> !is_sub_at(hay, needle, k),
        },
    decreases hay.len() - i,
{
    if i + needle.len() > hay.len() {
        assert forall|k: int| i <= k implies !is_sub_at(hay, needle, k) by {
            assert(k + needle.len() > hay.len());
        }
    } else if is_sub_at(hay, needle, i) {
    } else if i + needle.len() == hay.len() {
        assert forall|k: int| i <= k implies !is_sub_at(hay, needle, k) by {
            if k > i {
                assert(k + needle.len() > hay.len());
            }
        }
    } else {
        lemma_find_from_props(hay, needle, i + 1);
    }
}

/// Executable search for the first occurrence of `needle` in `hay`,
/// counting in characters.
pub fn find_sub(hay: &str, needle: &str) -> (r: Option<usize>)
    ensures
        match r {
            Some(i) => find_sub_spec(hay@, needle@) == Some(i as int),
            None => find_sub_spec(hay@, needle@) is None,
        },
{
    let hl = hay.unicode_len();
    let nl = needle.unicode_len();
    if nl > hl {
        return None;
    }
    let mut i: usize = 0;
    while i <= hl - nl
        invariant
            nl <= hl,
            hl == hay@.len(),
            nl == needle@.len(),
            0 <= i <= hl - nl + 1,
            find_sub_spec(hay@, needle@) == find_from(hay@, needle@, i as int),
        decreases hl - nl + 1 - i,
    {
        let mut j: usize = 0;
        let mut matches = true;
        while j < nl
            invariant
                nl <= hl,
                hl == hay@.len(),
                nl == needle@.len(),
                0 <= i <= hl - nl,
                0 <= j <= nl,
                matches == (forall|k: int| 0 <= k < j ==> hay@[i + k] == needle@[k]),
            decreases nl - j,
        {
            let hc = hay.get_char(i + j);
            let nc = needle.get_char(j);
            if hc != nc {
                matches = false;
                j = nl;
            } else {
                j = j + 1;
            }
        }
        if matches {
            assert(hay@.subrange(i as int, i + nl) =~= needle@);
            assert(is_sub_at(hay@, needle@, i as int));
            return Some(i);
        }
        assert(!is_sub_at(hay@, needle@, i as int)) by {
            if is_sub_at(hay@, needle@, i as int) {
                let k = choose|k: int| 0 <= k < nl && hay@[i + k] != needle@[k];
                assert(hay@.subrange(i as int, i + nl)[k] == hay@[i + k]);
            }
        }
        i = i + 1;
    }
    assert(find_from(hay@, needle@, i as int) is None);
    None
}

/// `suffix` is a suffix of `s`.
pub open spec fn is_suffix_of(suffix: Seq<char>, s: Seq<char>) -> bool {
    suffix.len() <= s.len() && s.subrange(s.len() - suffix.len(), s.len() as int) == suffix
}

/// Executable suffix test, counting in characters.
pub fn ends_with_sub(s: &str, suffix: &str) -> (r: bool)
    ensures
        r == is_suffix_of(suffix@, s@),
{
    let sl = s.unicode_len();
    let nl = suffix.unicode_len();
    if nl > sl {
        return false;
    }
    let off = sl - nl;
    let mut j: usize = 0;
    while j < nl
        invariant
            nl <= sl,
            sl == s@.len(),
            nl == suffix@.len(),
            off == sl - nl,
            0 <= j <= nl,
            forall|k: int| 0 <= k < j ==> s@[off + k] == suffix@[k],
        decreases nl - j,
    {
        let sc = s.get_char(off + j);
        let nc = suffix.get_char(j);
        if sc != nc {
            assert(!is_suffix_of(suffix@, s@)) by {
                if is_suffix_of(suffix@, s@) {
                    assert(s@.subrange(sl - nl, sl as int)[j as int] == s@[off + j]);
                }
            }
            return false;
        }
        j = j + 1;
    }
    assert(s@.subrange(sl - nl, sl as int) =~= suffix@);
    true
}

/// `s` with every occurrence of `tok` removed, scanning left to right over
/// non-overlapping occurrences, as `str::replace(tok, "")` does.
pub open spec fn remove_all_spec(s: Seq<char>, tok: Seq<char>) -> Seq<char>
    decreases s.len(),
{
    if tok.len() == 0 {
        s
    } else {
        match find_sub_spec(s, tok) {
            Some(i) => if 0 <= i && i + tok.len() <= s.len() {
                s.take(i) + remove_all_spec(s.skip(i + tok.len()), tok)
            } else {
                s
            },
            None => s,
        }
    }
}

/// Executable counterpart of [`remove_all_spec`].
pub fn remove_all(s: &str, tok: &str) -> (r: String)
    requires
        tok@.len() > 0,
    ensures
        r@ == remove_all_spec(s@, tok@),
{
    let sl = s.unicode_len();
    let tl = tok.unicode_len();
    let mut out = String::new();
    let mut pos: usize = 0;
    proof {
        assert(s@.skip(0) =~= s@);
        assert(out@ + remove_all_spec(s@, tok@) =~= remove_all_spec(s@, tok@));
    }
    loop
        invariant
            tl == tok@.len(),
            tl > 0,
            sl == s@.len(),
            0 <= pos <= sl,
            remove_all_spec(s@, tok@) == out@ + remove_all_spec(s@.skip(pos as int), tok@),
        decreases sl - pos,
    {
        let rest = s.substring_char(pos, sl);
        assert(rest@ =~= s@.skip(pos as int));
        match find_sub(rest, tok) {
            None => {
                out.append(rest);
                assert(remove_all_spec(s@.skip(pos as int), tok@) == s@.skip(pos as int));
                return out;
            },
            Some(rel) => {
                proof {
                    lemma_find_from_props(rest@, tok@, 0);
                }
                let piece = s.substring_char(pos, pos + rel);
                assert(piece@ =~= s@.skip(pos as int).take(rel as int));
                let ghost old_out = out@;
                out.append(piece);
                proof {
                    assert(s@.skip(pos as int).skip(rel + tl) =~= s@.skip(
                        pos + rel + tl,
                    ));
                    assert(old_out + (s@.skip(pos as int).take(rel as int) + remove_all_spec(
                        s@.skip(pos + rel + tl),
                        tok@,
                    )) =~= out@ + remove_all_spec(s@.skip(pos + rel + tl), tok@));
                }
                pos = pos + rel + tl;
            },
        }
    }
}

/// The line decomposition of `s`: pieces between `'\n'` characters, with the
/// final piece dropped when `s` ends in `'\n'`, as `str::lines` does for
/// newline-terminated text.
pub open spec fn lines_spec(s: Seq<char>) -> Seq<Seq<char>>
    decreases s.len(),
{
    if s.len() == 0 {
        Seq::empty()
    } else {
        match find_sub_spec(s, seq!['\n']) {
            Some(i) => if 0 <= i && i < s.len() {
                seq![s.take(i)] + lines_spec(s.skip(i + 1))
            } else {
                seq![s]
            },
            None => seq![s],
        }
    }
}

/// Executable counterpart of [`lines_spec`].
pub fn split_lines(s: &str) -> (r: Vec<String>)
    ensures
        r@.map_values(|x: String| x@) == lines_spec(s@),
{
    let sl = s.unicode_len();
    let mut out: Vec<String> = Vec::new();
    let mut pos: usize = 0;
    proof {
        reveal_strlit("\n");
        assert("\n"@ =~= seq!['\n']);
        assert(s@.skip(0) =~= s@);
        assert(out@.map_values(|x: String| x@) + lines_spec(s@) =~= lines_spec(s@));
    }
    loop
        invariant
            sl == s@.len(),
            0 <= pos <= sl,
            "\n"@ =~= seq!['\n'],
            lines_spec(s@) =~= out@.map_values(|x: String| x@) + lines_spec(
                s@.skip(pos as int),
            ),
        decreases sl - pos,
    {
        if pos == sl {
            proof {
                assert(s@.skip(pos as int) =~= Seq::<char>::empty());
                assert(out@.map_values(|x: String| x@) + lines_spec(s@.skip(pos as int))
                    =~= out@.map_values(|x: String| x@));
            }
            return out;
        }
        let rest = s.substring_char(pos, sl);
        assert(rest@ =~= s@.skip(pos as int));
        match find_sub(rest, "\n") {
            None => {
                let line = rest.to_owned();
                let ghost old_out = out@;
                out.push(line);
                proof {
                    assert(out@.map_values(|x: String| x@) =~= old_out.map_values(
                        |x: String| x@,
                    ).push(rest@));
                    assert(lines_spec(s@.skip(pos as int)) =~= seq![rest@]);
                    assert(old_out.map_values(|x: String| x@) + seq![rest@]
                        =~= out@.map_values(|x: String| x@));
                }
                return out;
            },
            Some(rel) => {
                proof {
                    lemma_find_from_props(rest@, "\n"@, 0);
                }
                let piece = s.substring_char(pos, pos + rel);
                assert(piece@ =~= s@.skip(pos as int).take(rel as int));
                let ghost old_out = out@;
                out.push(piece.to_owned());
                proof {
                    assert(out@.map_values(|x: String| x@) =~= old_out.map_values(
                        |x: String| x@,
                    ).push(s@.skip(pos as int).take(rel as int)));
                    assert(s@.skip(pos as int).skip(rel + 1) =~= s@.skip(pos + rel + 1));
                    assert(lines_spec(s@.skip(pos as int)) =~= seq![
                        s@.skip(pos as int).take(rel as int),
                    ] + lines_spec(s@.skip(pos + rel + 1)));
                    assert(old_out.map_values(|x: String| x@) + (seq![
                        s@.skip(pos as int).take(rel as int),
                    ] + lines_spec(s@.skip(pos + rel + 1))) =~= out@.map_values(
                        |x: String| x@,
                    ) + lines_spec(s@.skip(pos + rel + 1)));
                }
                pos = pos + rel + 1;
            },
        }
    }
}

/// The lines of `ls` joined with a single `'\n'` between adjacent lines.
pub open spec fn join_spec(ls: Seq<Seq<char>>) -> Seq<char>
    decreases ls.len(),
{
    if ls.len() == 0 {
        Seq::empty()
    } else if ls.len() == 1 {
        ls[0]
    } else {
        ls[0] + seq!['\n'] + join_spec(ls.drop_first())
    }
}

pub proof fn lemma_join_push(ls: Seq<Seq<char>>, x: Seq<char>)
    ensures
        join_spec(ls.push(x)) == if ls.len() == 0 {
            x
        } else {
            join_spec(ls) + seq!['\n'] + x
        },
    decreases ls.len(),
{
    if ls.len() == 0 {
        assert(ls.push(x)[0] == x);
        assert(join_spec(ls.push(x)) == x);
    } else if ls.len() == 1 {
        assert(ls.push(x)[0] == ls[0]);
        assert(ls.push(x).drop_first() =~= seq![x]);
        assert(seq![x][0] == x);
        assert(join_spec(seq![x]) == x);
        assert(join_spec(ls.push(x)) =~= ls[0] + seq!['\n'] + x);
        assert(join_spec(ls) == ls[0]);
        assert(join_spec(ls) + seq!['\n'] + x =~= ls[0] + seq!['\n'] + x);
    } else {
        assert(ls.push(x)[0] == ls[0]);
        assert(ls.push(x).drop_first() =~= ls.drop_first().push(x));
        lemma_join_push(ls.drop_first(), x);
        assert(join_spec(ls) + seq!['\n'] + x =~= ls[0] + seq!['\n'] + (join_spec(
            ls.drop_first(),
        ) + seq!['\n'] + x));
    }
}

/// Joins the lines `v[from..to]` with `'\n'` separators.
pub fn join_lines(v: &Vec<String>, from: usize, to: usize) -> (r: String)
    requires
        from <= to <= v@.len(),
    ensures
        r@ == join_spec(v@.subrange(from as int, to as int).map_values(|x: String| x@)),
{
    let mut out = String::new();
    let mut i: usize = from;
    proof {
        reveal_strlit("\n");
        assert("\n"@ =~= seq!['\n']);
        assert(v@.subrange(from as int, from as int).map_values(|x: String| x@)
            =~= Seq::<Seq<char>>::empty());
    }
    while i < to
        invariant
            from <= i <= to <= v@.len(),
            "\n"@ =~= seq!['\n'],
            out@ == join_spec(v@.subrange(from as int, i as int).map_values(|x: String| x@)),
        decreases to - i,
    {
        if i > from {
            out.append("\n");
        }
        out.append(v[i].as_str());
        proof {
            let prev = v@.subrange(from as int, i as int).map_values(|x: String| x@);
            let cur = v@.subrange(from as int, i + 1).map_values(|x: String| x@);
            assert(cur =~= prev.push(v@[i as int]@));
            lemma_join_push(prev, v@[i as int]@);
        }
        i = i + 1;
    }
    out
}

/// Number of occurrences of `c` among the characters of `s`.
pub open spec fn count_char(s: Seq<char>, c: char) -> int
    decreases s.len(),
{
    if s.len() == 0 {
        0
    } else {
        count_char(s.drop_last(), c) + if s.last() == c {
            1int
        } else {
            0int
        }
    }
}

pub proof fn lemma_count_char_nonneg(s: Seq<char>, c: char)
    ensures
        0 <= count_char(s, c) <= s.len(),
    decreases s.len(),
{
    if s.len() > 0 {
        lemma_count_char_nonneg(s.drop_last(), c);
    }
}

pub proof fn lemma_count_char_take_step(s: Seq<char>, c: char, i: int)
    requires
        0 <= i < s.len(),
    ensures
        count_char(s.take(i + 1), c) == count_char(s.take(i), c) + if s[i] == c {
            1int
        } else {
            0int
        },
{
    assert(s.take(i + 1).drop_last() =~= s.take(i));
    assert(s.take(i + 1).last() == s[i]);
}

/// Counts occurrences of `c` in the first `upto` characters of `s`.
pub fn count_char_upto(s: &str, c: char, upto: usize) -> (n: usize)
    requires
        upto <= s@.len(),
    ensures
        n == count_char(s@.take(upto as int), c),
{
    let mut n: usize = 0;
    let mut i: usize = 0;
    assert(s@.take(0) =~= Seq::<char>::empty());
    while i < upto
        invariant
            0 <= i <= upto <= s@.len(),
            n == count_char(s@.take(i as int), c),
            n <= i,
        decreases upto - i,
    {
        proof {
            lemma_count_char_take_step(s@, c, i as int);
            lemma_count_char_nonneg(s@.take(i as int), c);
        }
        let ch = s.get_char(i);
        if ch == c {
            n = n + 1;
        }
        i = i + 1;
    }
    n
}

/// The Unicode white-space characters, as `char::is_whitespace` classifies
/// them (the `White_Space` property).
pub open spec fn is_ws_char(c: char) -> bool {
    c == ' ' || c == '\t' || c == '\n' || c == '\r' || c == '\u{b}' || c == '\u{c}' || c
        == '\u{85}' || c == '\u{a0}' || c == '\u{1680}' || ('\u{2000}' <= c && c <= '\u{200a}')
        || c == '\u{2028}' || c == '\u{2029}' || c == '\u{202f}' || c == '\u{205f}' || c
        == '\u{3000}'
}

/// Executable counterpart of [`is_ws_char`].
pub fn char_is_ws(c: char) -> (r: bool)
    ensures
        r == is_ws_char(c),
{
    c == ' ' || c == '\t' || c == '\n' || c == '\r' || c == '\u{b}' || c == '\u{c}' || c
        == '\u{85}' || c == '\u{a0}' || c == '\u{1680}' || ('\u{2000}' <= c && c <= '\u{200a}')
        || c == '\u{2028}' || c == '\u{2029}' || c == '\u{202f}' || c == '\u{205f}' || c
        == '\u{3000}'
}

/// `s` consists of white space only (so trimming it leaves nothing).
pub open spec fn is_blank(s: Seq<char>) -> bool {
    forall|i: int| 0 <= i < s.len() ==> is_ws_char(s[i])
}

/// Executable counterpart of [`is_blank`].
pub fn str_is_blank(s: &str) -> (r: bool)
    ensures
        r == is_blank(s@),
{
    let sl = s.unicode_len();
    let mut i: usize = 0;
    while i < sl
        invariant
            0 <= i <= sl,
            sl == s@.len(),
            forall|k: int| 0 <= k < i ==> is_ws_char(s@[k]),
        decreases sl - i,
    {
        let c = s.get_char(i);
        if !char_is_ws(c) {
            return false;
        }
        i = i + 1;
    }
    true
}


/// Removing occurrences never lengthens the text.
pub proof fn lemma_remove_all_len(s: Seq<char>, tok: Seq<char>)
    ensures
        remove_all_spec(s, tok).len() <= s.len(),
    decreases s.len(),
{
    if tok.len() > 0 {
        match find_sub_spec(s, tok) {
            Some(i) => {
                if 0 <= i && i + tok.len() <= s.len() {
                    lemma_remove_all_len(s.skip(i + tok.len()), tok);
                }
            },
            None => {},
        }
    }
}

/// A text has at most one more line than it has characters.
pub proof fn lemma_lines_count(s: Seq<char>)
    ensures
        lines_spec(s).len() <= s.len() + 1,
        s.len() > 0 ==> lines_spec(s).len() >= 1,
    decreases s.len(),
{
    if s.len() > 0 {
        match find_sub_spec(s, seq!['\n']) {
            Some(i) => {
                if 0 <= i && i < s.len() {
                    lemma_lines_count(s.skip(i + 1));
                }
            },
            None => {},
        }
    }
}

} // verus!
