//! The feeder: split a line of text into word tokens on whitespace
//! boundaries, order and spelling preserved, and rejoin generated tokens
//! with single spaces.

use vstd::prelude::*;
use vstd::string::StrSliceExecFns;
use vstd::string::StringExecFns;

verus! {

/// The characters treated as whitespace boundaries: those with Unicode's
/// White_Space property, the class `char::is_whitespace` tests.
pub open spec fn is_space_char(c: char) -> bool {
    let u = c as u32;
    u == 0x20 || (0x09 <= u && u <= 0x0d) || u == 0x85 || u == 0xa0 || u == 0x1680 || (0x2000 <= u
        && u <= 0x200a) || u == 0x2028 || u == 0x2029 || u == 0x202f || u == 0x205f || u == 0x3000
}

fn is_space(c: char) -> (r: bool)
    ensures
        r == is_space_char(c),
{
    let u = c as u32;
    u == 0x20 || (0x09 <= u && u <= 0x0d) || u == 0x85 || u == 0xa0 || u == 0x1680 || (0x2000 <= u
        && u <= 0x200a) || u == 0x2028 || u == 0x2029 || u == 0x202f || u == 0x205f || u == 0x3000
}

/// The length of the leading run of non-whitespace characters.
pub open spec fn word_len(s: Seq<char>) -> nat
    decreases s.len(),
{
    if s.len() == 0 || is_space_char(s[0]) {
        0nat
    } else {
        1nat + word_len(s.drop_first())
    }
}

proof fn lemma_word_len_bounds(s: Seq<char>)
    ensures
        word_len(s) <= s.len(),
    decreases s.len(),
{
    if s.len() > 0 && !is_space_char(s[0]) {
        lemma_word_len_bounds(s.drop_first());
    }
}

/// A scan that saw no space before `w` and a space (or the end of the line)
/// at `w` found exactly the leading word.
proof fn lemma_word_len_from_scan(s: Seq<char>, w: int)
    requires
        0 <= w <= s.len(),
        forall|k: int| 0 <= k < w ==> !is_space_char(s[k]),
        w == s.len() || is_space_char(s[w]),
    ensures
        word_len(s) == w,
    decreases s.len(),
{
    if w > 0 {
        assert forall|k: int| 0 <= k < w - 1 implies !is_space_char(s.drop_first()[k]) by {
            assert(s.drop_first()[k] == s[k + 1]);
        }
        lemma_word_len_from_scan(s.drop_first(), w - 1);
    }
}

/// The token sequence of a line: the maximal runs of non-whitespace
/// characters, in order, spelling preserved. An empty line, or one of
/// whitespace only, has no tokens.
pub open spec fn spec_tokenize(s: Seq<char>) -> Seq<Seq<char>>
    decreases s.len(),
    via spec_tokenize_decreases
{
    if s.len() == 0 {
        Seq::empty()
    } else if is_space_char(s[0]) {
        spec_tokenize(s.drop_first())
    } else {
        seq![s.take(word_len(s) as int)] + spec_tokenize(s.skip(word_len(s) as int))
    }
}

#[via_fn]
proof fn spec_tokenize_decreases(s: Seq<char>) {
    if s.len() > 0 && !is_space_char(s[0]) {
        lemma_word_len_bounds(s);
        assert(word_len(s) >= 1);
    }
}

/// A line has no more tokens than characters.
pub proof fn lemma_token_count_le(s: Seq<char>)
    ensures
        spec_tokenize(s).len() <= s.len(),
    decreases s.len(),
{
    if s.len() == 0 {
    } else if is_space_char(s[0]) {
        lemma_token_count_le(s.drop_first());
    } else {
        lemma_word_len_bounds(s);
        lemma_token_count_le(s.skip(word_len(s) as int));
    }
}

/// Split a line into its word tokens on whitespace boundaries.
pub fn tokenize(line: &str) -> (r: Vec<String>)
    ensures
        r.deep_view() == spec_tokenize(line@),
{
    let n = line.unicode_len();
    let mut toks: Vec<String> = Vec::new();
    let mut i: usize = 0;
    proof {
        assert(line@.skip(0) =~= line@);
        assert(toks.deep_view() =~= Seq::<Seq<char>>::empty());
        assert(toks.deep_view() + spec_tokenize(line@) =~= spec_tokenize(line@));
    }
    while i < n
        invariant
            n == line@.len(),
            i <= n,
            toks.deep_view() + spec_tokenize(line@.skip(i as int)) == spec_tokenize(line@),
        decreases n - i,
    {
        let c = line.get_char(i);
        if is_space(c) {
            proof {
                assert(line@.skip(i as int)[0] == line@[i as int]);
                assert(line@.skip(i as int).drop_first() =~= line@.skip(i as int + 1));
            }
            i = i + 1;
        } else {
            let ghost old_dv = toks.deep_view();
            let mut j: usize = i + 1;
            while j < n && !is_space(line.get_char(j))
                invariant
                    n == line@.len(),
                    i < j <= n,
                    forall|k: int| i <= k < j ==> !is_space_char(line@[k]),
                decreases n - j,
            {
                j = j + 1;
            }
            let word = line.substring_char(i, j);
            toks.push(word.to_owned());
            proof {
                let s_i = line@.skip(i as int);
                assert forall|k: int| 0 <= k < j - i implies !is_space_char(s_i[k]) by {
                    assert(s_i[k] == line@[i + k]);
                }
                if (j as int) < n as int {
                    assert(is_space_char(s_i[j - i]));
                }
                lemma_word_len_from_scan(s_i, j - i);
                assert(s_i.take(j - i) =~= line@.subrange(i as int, j as int));
                assert(s_i.skip(j - i) =~= line@.skip(j as int));
                assert(spec_tokenize(s_i) == seq![line@.subrange(i as int, j as int)]
                    + spec_tokenize(line@.skip(j as int)));
                assert(toks.deep_view() =~= old_dv.push(line@.subrange(i as int, j as int)));
                assert(toks.deep_view() + spec_tokenize(line@.skip(j as int)) =~= old_dv + (seq![
                    line@.subrange(i as int, j as int),
                ] + spec_tokenize(line@.skip(j as int))));
            }
            i = j;
        }
    }
    proof {
        assert(line@.skip(i as int) =~= Seq::<char>::empty());
        assert(toks.deep_view() + spec_tokenize(line@.skip(i as int)) =~= toks.deep_view());
    }
    toks
}

/// The words rejoined with single-space separators.
pub open spec fn spec_join(ws: Seq<Seq<char>>) -> Seq<char>
    decreases ws.len(),
{
    if ws.len() == 0 {
        Seq::empty()
    } else if ws.len() == 1 {
        ws[0]
    } else {
        ws[0] + seq![' '] + spec_join(ws.drop_first())
    }
}

/// A joined line has at least one character per word beyond the first:
/// the word count is bounded by the text length.
pub proof fn lemma_join_len(ws: Seq<Seq<char>>)
    ensures
        ws.len() <= spec_join(ws).len() + 1,
    decreases ws.len(),
{
    if ws.len() >= 2 {
        lemma_join_len(ws.drop_first());
    }
}

proof fn lemma_spec_join_push(ws: Seq<Seq<char>>, w: Seq<char>)
    requires
        ws.len() >= 1,
    ensures
        spec_join(ws.push(w)) == spec_join(ws) + seq![' '] + w,
    decreases ws.len(),
{
    if ws.len() == 1 {
        assert(ws.push(w).drop_first() =~= seq![w]);
        assert(spec_join(seq![w]) == w);
        assert(spec_join(ws.push(w)) =~= spec_join(ws) + seq![' '] + w);
    } else {
        assert(ws.push(w).drop_first() =~= ws.drop_first().push(w));
        lemma_spec_join_push(ws.drop_first(), w);
        assert(spec_join(ws.push(w)) =~= spec_join(ws) + seq![' '] + w);
    }
}

/// Rejoin generated tokens into one line with single-space separators.
pub fn join_tokens(words: &Vec<String>) -> (r: String)
    ensures
        r@ == spec_join(words.deep_view()),
{
    let mut out = String::new();
    let mut i: usize = 0;
    while i < words.len()
        invariant
            i <= words@.len(),
            out@ == spec_join(words.deep_view().take(i as int)),
        decreases words@.len() - i,
    {
        let ghost dv = words.deep_view();
        if i > 0 {
            out.append(" ");
        }
        out.append(words[i].as_str());
        proof {
            reveal_strlit(" ");
            assert(dv[i as int] == words@[i as int]@);
            assert(dv.take(i as int + 1) =~= dv.take(i as int).push(dv[i as int]));
            if i > 0 {
                lemma_spec_join_push(dv.take(i as int), dv[i as int]);
                assert(out@ =~= spec_join(dv.take(i as int)) + seq![' '] + dv[i as int]);
            } else {
                assert(dv.take(1) =~= seq![dv[0]]);
                assert(out@ =~= dv[0]);
            }
        }
        i = i + 1;
    }
    proof {
        assert(words.deep_view().take(words@.len() as int) =~= words.deep_view());
    }
    out
}

} // verus!
