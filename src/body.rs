//! Request bodies in the `aws-chunked` framing: hex-size-prefixed chunks
//! (`HEXLEN[;chunk-signature=...]\r\nDATA\r\n`) ending with a chunk of size
//! zero. Chunk signatures are not checked.

use vstd::prelude::*;
use vstd::utf8::*;
use crate::digest::utf8_string;
use crate::text::{chars_of, chars_view, split, split_chars, trim, trim_chars};

verus! {

/// The value of a hex digit, or `None`.
pub open spec fn hex_value(c: char) -> Option<int> {
    if '0' <= c <= '9' {
        Some((c as int) - 48)
    } else if 'a' <= c <= 'f' {
        Some((c as int) - 87)
    } else if 'A' <= c <= 'F' {
        Some((c as int) - 55)
    } else {
        None
    }
}

/// The value of a string of hex digits, `None` when a character is not a
/// digit or the value does not fit in a `usize`.
pub open spec fn hex_digits_value(s: Seq<char>) -> Option<int>
    decreases s.len(),
{
    if s.len() == 0 {
        Some(0)
    } else {
        match hex_digits_value(s.drop_last()) {
            None => None,
            Some(v) => match hex_value(s.last()) {
                None => None,
                Some(d) => if v * 16 + d > usize::MAX {
                    None
                } else {
                    Some(v * 16 + d)
                },
            },
        }
    }
}

/// A chunk size as `usize::from_str_radix(_, 16)` reads it: an optional
/// `+`, then at least one hex digit.
pub open spec fn chunk_size_value(s: Seq<char>) -> Option<int> {
    let d = if s.len() > 0 && s[0] == '+' {
        s.skip(1)
    } else {
        s
    };
    if d.len() == 0 {
        None
    } else {
        hex_digits_value(d)
    }
}

/// `s` without trailing `\r` and `\n` characters.
pub open spec fn trim_line_end(s: Seq<char>) -> Seq<char>
    decreases s.len(),
{
    if s.len() > 0 && (s.last() == '\r' || s.last() == '\n') {
        trim_line_end(s.drop_last())
    } else {
        s
    }
}

/// The chunk size announced by a header line: the part before the first
/// `;`, trimmed.
pub open spec fn line_chunk_size(line: Seq<char>) -> Option<int> {
    chunk_size_value(trim(split(trim_line_end(line), ';')[0]))
}

/// Where the first line of `b` ends: the position just after its `\n`, or
/// the end of `b`.
pub open spec fn line_end(b: Seq<u8>) -> int
    decreases b.len(),
{
    if b.len() == 0 {
        0
    } else if b[0] == 10 {
        1
    } else {
        1 + line_end(b.drop_first())
    }
}

pub proof fn lemma_line_end_bounds(b: Seq<u8>)
    ensures
        b.len() > 0 ==> 1 <= line_end(b) <= b.len(),
        b.len() == 0 ==> line_end(b) == 0,
    decreases b.len(),
{
    if b.len() > 0 {
        lemma_line_end_bounds(b.drop_first());
    }
}

/// The decoded payload of an `aws-chunked` body, or `None` when its framing
/// is malformed: a header line that is not UTF-8 or does not start with a
/// hex size, or a chunk that runs past the end. After each chunk two bytes
/// (the `\r\n`) are skipped. The body ends at a chunk of size zero or at its
/// end.
pub open spec fn decode_chunked(b: Seq<u8>) -> Option<Seq<u8>>
    decreases b.len(),
{
    if b.len() == 0 {
        Some(Seq::empty())
    } else {
        let e = line_end(b);
        let line = b.subrange(0, e);
        let rest = b.skip(e);
        if e < 1 || e > b.len() || !valid_utf8(line) {
            None
        } else {
            match line_chunk_size(decode_utf8(line)) {
                None => None,
                Some(n) => if n == 0 {
                    Some(Seq::empty())
                } else if n < 0 || n > rest.len() {
                    None
                } else {
                    let after = rest.skip(n);
                    let next = if after.len() >= 2 {
                        after.skip(2)
                    } else {
                        Seq::empty()
                    };
                    match decode_chunked(next) {
                        Some(t) => Some(rest.subrange(0, n) + t),
                        None => None,
                    }
                },
            }
        }
    }
}

fn parse_chunk_size(s: &Vec<char>) -> (r: Option<usize>)
    ensures
        match chunk_size_value(s@) {
            Some(v) => r is Some && r->0 == v,
            None => r is None,
        },
{
    let start: usize = if s.len() > 0 && s[0] == '+' {
        1
    } else {
        0
    };
    let ghost d = if s@.len() > 0 && s@[0] == '+' {
        s@.skip(1)
    } else {
        s@
    };
    proof {
        assert(d == s@.subrange(start as int, s@.len() as int));
    }
    if start >= s.len() {
        return None;
    }
    let mut acc: usize = 0;
    let mut i: usize = start;
    proof {
        assert(s@.subrange(start as int, start as int) =~= Seq::<char>::empty());
    }
    while i < s.len()
        invariant
            start <= i <= s@.len(),
            start < s@.len(),
            d == s@.subrange(start as int, s@.len() as int),
            chunk_size_value(s@) == hex_digits_value(d),
            hex_digits_value(s@.subrange(start as int, i as int)) == Some(acc as int),
        decreases s@.len() - i,
    {
        let c = s[i];
        proof {
            assert(s@.subrange(start as int, i + 1).drop_last() == s@.subrange(start as int, i as int));
            assert(s@.subrange(start as int, i + 1).last() == c);
        }
        let v: usize = if '0' <= c && c <= '9' {
            (c as u32 - 48) as usize
        } else if 'a' <= c && c <= 'f' {
            (c as u32 - 87) as usize
        } else if 'A' <= c && c <= 'F' {
            (c as u32 - 55) as usize
        } else {
            proof {
                assert(s@.subrange(start as int, s@.len() as int).subrange(0, i + 1 - start) == s@.subrange(
                    start as int,
                    i + 1,
                ));
                lemma_hex_none_sticky(s@.subrange(start as int, i + 1), s@.subrange(start as int, s@.len() as int));
            }
            return None;
        };
        let m = acc.checked_mul(16);
        let next = match m {
            Some(m) => m.checked_add(v),
            None => None,
        };
        match next {
            Some(n) => {
                acc = n;
            },
            None => {
                proof {
                    assert(s@.subrange(start as int, s@.len() as int).subrange(0, i + 1 - start) == s@.subrange(
                        start as int,
                        i + 1,
                    ));
                    lemma_hex_none_sticky(s@.subrange(start as int, i + 1), s@.subrange(start as int, s@.len() as int));
                }
                return None;
            },
        }
        i = i + 1;
    }
    proof {
        assert(s@.subrange(start as int, s@.len() as int) == d);
    }
    Some(acc)
}

/// Once a prefix fails to parse, every extension fails too.
proof fn lemma_hex_none_sticky(p: Seq<char>, s: Seq<char>)
    requires
        p.len() <= s.len(),
        s.subrange(0, p.len() as int) == p,
        hex_digits_value(p) is None,
    ensures
        hex_digits_value(s) is None,
    decreases s.len(),
{
    if s.len() > p.len() {
        assert(s.drop_last().subrange(0, p.len() as int) == p);
        lemma_hex_none_sticky(p, s.drop_last());
    } else {
        assert(s == p);
    }
}

fn trim_line_end_chars(v: &Vec<char>) -> (r: Vec<char>)
    ensures
        r@ == trim_line_end(v@),
{
    let mut n = v.len();
    proof {
        assert(v@.subrange(0, n as int) == v@);
    }
    while n > 0 && (v[n - 1] == '\r' || v[n - 1] == '\n')
        invariant
            n <= v@.len(),
            trim_line_end(v@) == trim_line_end(v@.subrange(0, n as int)),
        decreases n,
    {
        proof {
            assert(v@.subrange(0, n as int).drop_last() == v@.subrange(0, n - 1));
        }
        n = n - 1;
    }
    crate::text::copy_range(v.as_slice(), 0, n)
}

fn copy_bytes(b: &[u8], lo: usize, hi: usize) -> (r: Vec<u8>)
    requires
        lo <= hi <= b@.len(),
    ensures
        r@ == b@.subrange(lo as int, hi as int),
{
    let mut r: Vec<u8> = Vec::new();
    let mut i = lo;
    while i < hi
        invariant
            lo <= i <= hi,
            hi <= b@.len(),
            r@ == b@.subrange(lo as int, i as int),
        decreases hi - i,
    {
        r.push(b[i]);
        proof {
            assert(r@ =~= b@.subrange(lo as int, i + 1));
        }
        i = i + 1;
    }
    r
}

fn find_line_end(b: &[u8], pos: usize) -> (r: usize)
    requires
        pos < b@.len(),
    ensures
        r - pos == line_end(b@.skip(pos as int)),
        pos < r <= b@.len(),
{
    let mut i = pos;
    proof {
        lemma_line_end_bounds(b@.skip(pos as int));
    }
    while i < b.len()
        invariant
            pos <= i <= b@.len(),
            forall|k: int| pos <= k < i ==> b@[k] != 10,
            line_end(b@.skip(pos as int)) == (i - pos) + line_end(b@.skip(i as int)),
        decreases b@.len() - i,
    {
        if b[i] == 10 {
            proof {
                assert(b@.skip(i as int)[0] == 10);
            }
            return i + 1;
        }
        proof {
            assert(b@.skip(i as int).drop_first() == b@.skip(i + 1));
        }
        i = i + 1;
    }
    proof {
        assert(b@.skip(i as int).len() == 0);
    }
    i
}

/// Decodes an `aws-chunked` body; `None` when its framing is malformed.
pub fn decode_aws_chunked(body: &[u8]) -> (r: Option<Vec<u8>>)
    ensures
        match decode_chunked(body@) {
            Some(t) => r is Some && r->0@ == t,
            None => r is None,
        },
{
    let mut out: Vec<u8> = Vec::new();
    let mut pos: usize = 0;
    proof {
        assert(body@.skip(0) == body@);
    }
    while pos < body.len()
        invariant
            pos <= body@.len(),
            decode_chunked(body@) == match decode_chunked(body@.skip(pos as int)) {
                Some(t) => Some(out@ + t),
                None => None,
            },
        decreases body@.len() - pos,
    {
        let ghost b = body@.skip(pos as int);
        let e = find_line_end(body, pos);
        let line = copy_bytes(body, pos, e);
        proof {
            lemma_line_end_bounds(b);
            assert(line@ == b.subrange(0, line_end(b)));
            assert(body@.skip(e as int) == b.skip(line_end(b)));
        }
        let ghost line_bytes = line@;
        let text = match utf8_string(line) {
            Some(t) => t,
            None => {
                return None;
            },
        };
        let chars = chars_of(text.as_str());
        let trimmed = trim_line_end_chars(&chars);
        let parts = split_chars(trimmed.as_slice(), ';');
        proof {
            crate::text::lemma_split_nonempty(trimmed@, ';');
            assert(chars_view(parts@)[0] == parts@[0]@);
        }
        let size_text = trim_chars(parts[0].as_slice());
        let size = match parse_chunk_size(&size_text) {
            Some(n) => n,
            None => {
                return None;
            },
        };
        if size == 0 {
            proof {
                assert(out@ + Seq::<u8>::empty() == out@);
            }
            return Some(out);
        }
        if size > body.len() - e {
            return None;
        }
        let end = e + size;
        let mut j: usize = e;
        let ghost base = out@;
        while j < end
            invariant
                e <= j <= end,
                end == e + size,
                end <= body@.len(),
                out@ == base + body@.subrange(e as int, j as int),
            decreases end - j,
        {
            out.push(body[j]);
            proof {
                assert(out@ =~= base + body@.subrange(e as int, j + 1));
            }
            j = j + 1;
        }
        let after = e + size;
        let next = if body.len() - after >= 2 {
            after + 2
        } else {
            body.len()
        };
        proof {
            let rest = b.skip(line_end(b));
            assert(rest.subrange(0, size as int) == body@.subrange(e as int, after as int));
            let af = rest.skip(size as int);
            assert(af == body@.skip(after as int));
            if af.len() >= 2 {
                assert(af.skip(2) == body@.skip(next as int));
            } else {
                assert(body@.skip(next as int) =~= Seq::<u8>::empty());
            }
            assert(base + body@.subrange(e as int, after as int) + decode_chunked(body@.skip(next as int))->0
                =~= base + (body@.subrange(e as int, after as int) + decode_chunked(body@.skip(next as int))->0));
        }
        pos = next;
    }
    proof {
        assert(body@.skip(pos as int) =~= Seq::<u8>::empty());
        assert(out@ + Seq::<u8>::empty() == out@);
    }
    Some(out)
}

} // verus!
