use vstd::prelude::*;
use vstd::string::StringSliceAdditionalSpecFns;
use vstd::utf8::*;

use crate::text::{bytes_of, contains_query, is_substring, lines_of, split_lines};

verus! {

/// The lowercase form of a text, as Unicode defines it.
pub uninterp spec fn lower_of(s: Seq<char>) -> Seq<char>;

/// Relies on str::to_lowercase: the result depends on the characters alone, and the
/// lowercase form of an empty string is empty.
#[verifier::external_body]
fn lowercase(s: &str) -> (r: String)
    ensures
        r@ == lower_of(s@),
        s@.len() == 0 ==> r@.len() == 0,
{
    s.to_lowercase()
}

/// Holds of a line that contains the query byte for byte.
pub open spec fn contains_pred(query: Seq<u8>) -> spec_fn(Seq<u8>) -> bool {
    |line: Seq<u8>| is_substring(line, query)
}

/// Holds of a line whose lowercase form contains the lowercase form of the query.
pub open spec fn folded_pred(query: Seq<char>) -> spec_fn(Seq<u8>) -> bool {
    |line: Seq<u8>|
        is_substring(encode_utf8(lower_of(decode_utf8(line))), encode_utf8(lower_of(query)))
}

/// The lines of the text `contents` that contain `query`, in order.
pub open spec fn matching_lines(contents: Seq<u8>, query: Seq<u8>) -> Seq<Seq<u8>> {
    lines_of(contents).filter(contains_pred(query))
}

/// The lines of the text `contents` that contain `query` once both are lowercased, in order.
pub open spec fn matching_lines_folded(contents: Seq<u8>, query: Seq<char>) -> Seq<Seq<u8>> {
    lines_of(contents).filter(folded_pred(query))
}

proof fn lemma_filter_push<A>(s: Seq<A>, x: A, pred: spec_fn(A) -> bool)
    ensures
        s.push(x).filter(pred) == (if pred(x) {
            s.filter(pred).push(x)
        } else {
            s.filter(pred)
        }),
{
    reveal(Seq::filter);
    assert(s.push(x).drop_last() =~= s);
}

proof fn lemma_filter_all<A>(s: Seq<A>, pred: spec_fn(A) -> bool)
    requires
        forall|i: int| 0 <= i < s.len() ==> pred(#[trigger] s[i]),
    ensures
        s.filter(pred) == s,
    decreases s.len(),
{
    reveal(Seq::filter);
    if s.len() > 0 {
        lemma_filter_all(s.drop_last(), pred);
        assert(s.drop_last().push(s.last()) =~= s);
    }
}

/// Returns the lines of `contents` that contain `query`, in the order in which they stand.
pub fn search_lines<'a>(query: &str, contents: &'a str) -> (r: Vec<&'a str>)
    ensures
        bytes_of(r@) == matching_lines(contents.spec_bytes(), query.spec_bytes()),
        query@.len() == 0 ==> bytes_of(r@) == lines_of(contents.spec_bytes()),
{
    let lines = split_lines(contents);
    let ghost all = bytes_of(lines@);
    let ghost pred = contains_pred(query.spec_bytes());
    let mut out: Vec<&'a str> = Vec::new();
    let mut k: usize = 0;
    while k < lines.len()
        invariant
            all == bytes_of(lines@),
            pred == contains_pred(query.spec_bytes()),
            k <= lines.len(),
            bytes_of(out@) == all.take(k as int).filter(pred),
        decreases lines.len() - k,
    {
        let line = lines[k];
        let hit = contains_query(line, query);
        proof {
            assert(all.take(k + 1) =~= all.take(k as int).push(line.spec_bytes()));
            lemma_filter_push(all.take(k as int), line.spec_bytes(), pred);
        }
        if hit {
            let ghost before = out@;
            out.push(line);
            assert(bytes_of(out@) =~= bytes_of(before).push(line.spec_bytes()));
        }
        k += 1;
    }
    assert(all.take(k as int) =~= all);
    proof {
        if query@.len() == 0 {
            assert(query.spec_bytes() =~= Seq::<u8>::empty());
            assert forall|i: int| 0 <= i < all.len() implies pred(#[trigger] all[i]) by {
                assert(all[i].subrange(0, 0int + query.spec_bytes().len()) =~= query.spec_bytes());
            }
            lemma_filter_all(all, pred);
        }
    }
    out
}

/// Returns the lines of `contents` that contain `query` when both are lowercased, in the
/// order in which they stand; each line is returned as it is written.
pub fn search_lines_case_insensitive<'a>(query: &str, contents: &'a str) -> (r: Vec<&'a str>)
    ensures
        bytes_of(r@) == matching_lines_folded(contents.spec_bytes(), query@),
        query@.len() == 0 ==> bytes_of(r@) == lines_of(contents.spec_bytes()),
{
    broadcast use encode_utf8_decode_utf8;

    let folded_query = lowercase(query);
    let lines = split_lines(contents);
    let ghost all = bytes_of(lines@);
    let ghost pred = folded_pred(query@);
    let mut out: Vec<&'a str> = Vec::new();
    let mut k: usize = 0;
    while k < lines.len()
        invariant
            all == bytes_of(lines@),
            pred == folded_pred(query@),
            folded_query@ == lower_of(query@),
            k <= lines.len(),
            bytes_of(out@) == all.take(k as int).filter(pred),
        decreases lines.len() - k,
    {
        let line = lines[k];
        let folded_line = lowercase(line);
        let hit = contains_query(folded_line.as_str(), folded_query.as_str());
        proof {
            encode_utf8_decode_utf8(line@);
            assert(decode_utf8(line.spec_bytes()) == line@);
            assert(hit == pred(line.spec_bytes()));
            assert(all.take(k + 1) =~= all.take(k as int).push(line.spec_bytes()));
            lemma_filter_push(all.take(k as int), line.spec_bytes(), pred);
        }
        if hit {
            let ghost before = out@;
            out.push(line);
            assert(bytes_of(out@) =~= bytes_of(before).push(line.spec_bytes()));
        }
        k += 1;
    }
    assert(all.take(k as int) =~= all);
    proof {
        if query@.len() == 0 {
            let fq = encode_utf8(lower_of(query@));
            assert(fq =~= Seq::<u8>::empty());
            assert forall|i: int| 0 <= i < all.len() implies pred(#[trigger] all[i]) by {
                let fl = encode_utf8(lower_of(decode_utf8(all[i])));
                assert(fl.subrange(0, 0int + fq.len()) =~= fq);
            }
            lemma_filter_all(all, pred);
        }
    }
    out
}

/// `f` places each item of `sub` at an equal item of `s`, at strictly increasing positions.
pub open spec fn embeds<A>(sub: Seq<A>, s: Seq<A>, f: spec_fn(int) -> int) -> bool {
    &&& forall|k: int| 0 <= k < sub.len() ==> 0 <= #[trigger] f(k) < s.len() && sub[k] == s[f(k)]
    &&& forall|j: int, k: int| 0 <= j < k < sub.len() ==> #[trigger] f(j) < #[trigger] f(k)
}

/// `sub` is made of items of `s`, taken in the order in which they stand there.
pub open spec fn is_subsequence<A>(sub: Seq<A>, s: Seq<A>) -> bool {
    exists|f: spec_fn(int) -> int| embeds(sub, s, f)
}

proof fn lemma_filter_subsequence<A>(s: Seq<A>, pred: spec_fn(A) -> bool)
    ensures
        is_subsequence(s.filter(pred), s),
        forall|k: int| 0 <= k < s.filter(pred).len() ==> pred(#[trigger] s.filter(pred)[k]),
    decreases s.len(),
{
    reveal(Seq::filter);
    let out = s.filter(pred);
    if s.len() == 0 {
        let f = |k: int| k;
        assert(embeds(out, s, f));
    } else {
        let init = s.drop_last();
        lemma_filter_subsequence(init, pred);
        let sub = init.filter(pred);
        let g = choose|g: spec_fn(int) -> int| embeds(sub, init, g);
        if pred(s.last()) {
            let f = |k: int|
                if k == sub.len() {
                    s.len() - 1
                } else {
                    g(k)
                };
            assert(out == sub.push(s.last()));
            assert(embeds(out, s, f));
        } else {
            assert(embeds(out, s, g));
        }
    }
}

/// Every line that a search returns contains the query, and the lines returned are lines of
/// the text, in the order in which they stand there; the same holds of a case-insensitive
/// search for `query_text`, where a line contains the query once both are lowercased.
pub proof fn lemma_matches_are_ordered_lines(
    contents: Seq<u8>,
    query: Seq<u8>,
    query_text: Seq<char>,
)
    ensures
        is_subsequence(matching_lines(contents, query), lines_of(contents)),
        forall|k: int|
            0 <= k < matching_lines(contents, query).len() ==> is_substring(
                #[trigger] matching_lines(contents, query)[k],
                query,
            ),
        is_subsequence(matching_lines_folded(contents, query_text), lines_of(contents)),
        forall|k: int|
            0 <= k < matching_lines_folded(contents, query_text).len() ==> folded_pred(query_text)(
                #[trigger] matching_lines_folded(contents, query_text)[k],
            ),
{
    lemma_filter_subsequence(lines_of(contents), contains_pred(query));
    lemma_filter_subsequence(lines_of(contents), folded_pred(query_text));
}

/// Searching for a whole line of the text finds that line, in either mode.
pub proof fn lemma_whole_line_is_found(contents: Seq<u8>, line: Seq<u8>)
    requires
        lines_of(contents).contains(line),
    ensures
        matching_lines(contents, line).contains(line),
        matching_lines_folded(contents, decode_utf8(line)).contains(line),
{
    let all = lines_of(contents);
    let i = choose|i: int| 0 <= i < all.len() && all[i] == line;
    assert(line.subrange(0, 0int + line.len()) =~= line);
    let folded = encode_utf8(lower_of(decode_utf8(line)));
    assert(folded.subrange(0, 0int + folded.len()) =~= folded);
    all.lemma_filter_contains(contains_pred(line), i);
    all.lemma_filter_contains(folded_pred(decode_utf8(line)), i);
}

} // verus!
