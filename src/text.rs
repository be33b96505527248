use vstd::prelude::*;
use vstd::string::StringSliceAdditionalSpecFns;
use vstd::utf8::*;

verus! {

/// True when `needle` occurs in `haystack` as a contiguous run of bytes.
pub open spec fn is_substring(haystack: Seq<u8>, needle: Seq<u8>) -> bool {
    exists|i: int|
        0 <= i <= haystack.len() - needle.len() && #[trigger] haystack.subrange(i, i + needle.len())
            == needle
}

/// Reports whether `query` occurs in `line`; an empty query occurs everywhere.
pub fn contains_query(line: &str, query: &str) -> (r: bool)
    ensures
        r == is_substring(line.spec_bytes(), query.spec_bytes()),
{
    let h = line.as_bytes();
    let n = query.as_bytes();
    if n.len() == 0 {
        assert(h@.subrange(0, 0int + n@.len()) =~= n@);
        return true;
    }
    let mut i: usize = 0;
    while i <= h.len() && n.len() <= h.len() - i
        invariant
            h@ == line.spec_bytes(),
            n@ == query.spec_bytes(),
            n.len() > 0,
            forall|k: int| 0 <= k < i ==> #[trigger] h@.subrange(k, k + n@.len()) != n@,
        decreases h.len() - i,
    {
        let mut j: usize = 0;
        let mut same = true;
        while same && j < n.len()
            invariant
                i + n.len() <= h.len(),
                j <= n.len(),
                forall|m: int| 0 <= m < j ==> h@[i + m] == n@[m],
                !same ==> j < n.len() && h@[i + j] != n@[j as int],
            decreases n.len() - j + (if same { 1int } else { 0int }),
        {
            if h[i + j] != n[j] {
                same = false;
            } else {
                j += 1;
            }
        }
        if same {
            assert(h@.subrange(i as int, i + n@.len()) =~= n@);
            return true;
        }
        assert(h@.subrange(i as int, i + n@.len())[j as int] != n@[j as int]);
        i += 1;
    }
    false
}

/// The byte that ends a line.
pub const LF: u8 = 0x0A;

/// The byte that, just before a line feed, belongs to the line ending too.
pub const CR: u8 = 0x0D;

/// A terminated line without the carriage return that may precede its line feed.
pub open spec fn strip_cr(line: Seq<u8>) -> Seq<u8> {
    if line.len() > 0 && line.last() == CR {
        line.drop_last()
    } else {
        line
    }
}

/// The lines of `b` that follow position `i`, where the line being read began at `start`.
/// A line ends at a line feed, which it does not include, nor a carriage return just before
/// it; the last line needs no line feed, and nothing after a final line feed is a line.
pub open spec fn lines_from(b: Seq<u8>, start: int, i: int) -> Seq<Seq<u8>>
    decreases b.len() - i,
{
    if i >= b.len() {
        if start < b.len() {
            seq![b.subrange(start, b.len() as int)]
        } else {
            seq![]
        }
    } else if b[i] == LF {
        seq![strip_cr(b.subrange(start, i))] + lines_from(b, i + 1, i + 1)
    } else {
        lines_from(b, start, i + 1)
    }
}

/// The lines of the text whose UTF-8 encoding is `b`, in order.
pub open spec fn lines_of(b: Seq<u8>) -> Seq<Seq<u8>> {
    lines_from(b, 0, 0)
}

/// The bytes of each slice in `v`.
pub open spec fn bytes_of(v: Seq<&str>) -> Seq<Seq<u8>> {
    v.map_values(|l: &str| l.spec_bytes())
}

proof fn lemma_ascii_boundary(t: Seq<u8>, k: int)
    requires
        valid_utf8(t),
        0 <= k <= t.len(),
        k == t.len() || t[k] < 0x80,
    ensures
        is_char_boundary(t, k),
{
    if k == t.len() {
        is_char_boundary_start_end_of_seq(t);
    } else {
        is_char_boundary_iff_not_is_continuation_byte(t, k);
    }
}

proof fn lemma_boundary_after_ascii(t: Seq<u8>)
    requires
        valid_utf8(t),
        t.len() > 0,
        t[0] < 0x80,
    ensures
        is_char_boundary(t, 1),
{
    reveal_with_fuel(is_char_boundary, 2);
}

/// Splits `contents` into its lines, each a slice of it.
pub fn split_lines<'a>(contents: &'a str) -> (r: Vec<&'a str>)
    ensures
        bytes_of(r@) == lines_of(contents.spec_bytes()),
{
    broadcast use encode_utf8_valid_utf8;

    let b = contents.as_bytes();
    let mut out: Vec<&'a str> = Vec::new();
    let mut rest: &'a str = contents;
    let mut start: usize = 0;
    let mut i: usize = 0;
    assert(rest.spec_bytes() =~= b@.subrange(0, b@.len() as int));
    while i < b.len()
        invariant
            b@ == contents.spec_bytes(),
            start <= i <= b.len(),
            rest.spec_bytes() == b@.subrange(start as int, b@.len() as int),
            lines_of(b@) == bytes_of(out@) + lines_from(b@, start as int, i as int),
        decreases b.len() - i,
    {
        if b[i] == LF {
            let ghost rb = rest.spec_bytes();
            proof {
                encode_utf8_valid_utf8(rest@);
                lemma_ascii_boundary(rb, i - start);
            }
            let (pre, u) = rest.split_at(i - start);
            proof {
                assert(u.spec_bytes()[0] == b@[i as int]);
                encode_utf8_valid_utf8(u@);
                lemma_boundary_after_ascii(u.spec_bytes());
            }
            let (_, tail) = u.split_at(1);
            let pb = pre.as_bytes();
            let line = if pb.len() > 0 && pb[pb.len() - 1] == CR {
                proof {
                    encode_utf8_valid_utf8(pre@);
                    lemma_ascii_boundary(pb@, pb.len() - 1);
                }
                pre.split_at(pb.len() - 1).0
            } else {
                pre
            };
            assert(pre.spec_bytes() =~= b@.subrange(start as int, i as int));
            assert(line.spec_bytes() =~= strip_cr(b@.subrange(start as int, i as int)));
            assert(tail.spec_bytes() =~= b@.subrange(i + 1, b@.len() as int));
            let ghost before = out@;
            out.push(line);
            assert(bytes_of(out@) =~= bytes_of(before).push(line.spec_bytes()));
            assert(lines_from(b@, start as int, i as int) == seq![line.spec_bytes()] + lines_from(
                b@,
                i + 1,
                i + 1,
            ));
            assert(lines_of(b@) =~= bytes_of(out@) + lines_from(b@, i + 1, i + 1));
            rest = tail;
            start = i + 1;
        }
        i += 1;
    }
    if start < b.len() {
        let ghost before = out@;
        out.push(rest);
        assert(bytes_of(out@) =~= bytes_of(before).push(rest.spec_bytes()));
    }
    assert(bytes_of(out@) =~= lines_of(b@));
    out
}

} // verus!
