//! Functions on string slices that ropes, their slices and their chunks
//! share.
use vstd::prelude::*;
use vstd::slice::slice_subrange;
use vstd::string::StringSliceAdditionalSpecFns;
use vstd::utf8::{
    encode_utf8_valid_utf8, is_char_boundary, is_char_boundary_iff_not_is_continuation_byte,
    is_char_boundary_start_end_of_seq, length_of_first_scalar, pop_first_scalar,
    utf8_byte_ranges_bitwise, valid_utf8, valid_utf8_split,
};

verus! {

/// The carriage return.
pub const CR: u8 = 13u8;

/// The line feed.
pub const LF: u8 = 10u8;

/// Whether the offset `i` lies between a carriage return and the line feed
/// that follows it.
pub open spec fn splits_crlf(bytes: Seq<u8>, i: int) -> bool {
    0 < i < bytes.len() && bytes[i - 1] == CR && bytes[i] == LF
}

/// Whether text may be split at the offset `i`: between two characters and
/// not inside a pair of carriage return and line feed.
pub open spec fn valid_split(bytes: Seq<u8>, i: int) -> bool {
    is_char_boundary(bytes, i) && !splits_crlf(bytes, i)
}

/// The bytes of a string slice are valid UTF-8, and its two ends are
/// character boundaries.
pub proof fn lemma_str_bytes(s: &str)
    ensures
        valid_utf8(s.spec_bytes()),
        is_char_boundary(s.spec_bytes(), 0),
        is_char_boundary(s.spec_bytes(), s.spec_bytes().len() as int),
{
    encode_utf8_valid_utf8(s@);
    is_char_boundary_start_end_of_seq(s.spec_bytes());
}

/// Right after a character of one byte lies a character boundary.
pub proof fn lemma_boundary_after_ascii(bytes: Seq<u8>, i: int)
    requires
        valid_utf8(bytes),
        0 <= i < bytes.len(),
        is_char_boundary(bytes, i),
        bytes[i] <= 0x7f,
    ensures
        is_char_boundary(bytes, i + 1),
{
    if i + 1 == bytes.len() {
        is_char_boundary_start_end_of_seq(bytes);
    } else {
        let suffix = bytes.subrange(i, bytes.len() as int);
        valid_utf8_split(bytes, i);
        utf8_byte_ranges_bitwise(suffix[0]);
        assert(length_of_first_scalar(suffix) == 1);
        let rest = pop_first_scalar(suffix);
        assert(valid_utf8(rest)) by {
            reveal_with_fuel(valid_utf8, 2);
        }
        assert(rest =~= bytes.subrange(i + 1, bytes.len() as int));
        is_char_boundary_iff_not_is_continuation_byte(rest, 0);
        is_char_boundary_iff_not_is_continuation_byte(bytes, i + 1);
    }
}

/// Returns whether `byte_offset` would be splitting a CRLF pair inside `s`.
pub fn is_splitting_crlf_pair(s: &str, byte_offset: usize) -> (r: bool)
    ensures
        r == splits_crlf(s.spec_bytes(), byte_offset as int),
{
    let bytes = s.as_bytes();
    byte_offset > 0 && byte_offset < bytes.len() && bytes[byte_offset - 1] == CR
        && bytes[byte_offset] == LF
}

/// Returns `true` if the last byte in the string slice is a carriage
/// return.
pub fn ends_in_cr(s: &str) -> (r: bool)
    requires
        s.spec_bytes().len() > 0,
    ensures
        r == (s.spec_bytes().last() == CR),
{
    let bytes = s.as_bytes();
    bytes[bytes.len() - 1] == CR
}

/// Returns `true` if the first byte in the string slice is a line feed.
pub fn starts_with_lf(s: &str) -> (r: bool)
    ensures
        r == (s.spec_bytes().len() > 0 && s.spec_bytes()[0] == LF),
{
    let bytes = s.as_bytes();
    bytes.len() > 0 && bytes[0] == LF
}

/// Returns `true` if the last byte of the string slice is a line feed.
pub fn last_byte_is_newline(s: &str) -> (r: bool)
    ensures
        r == (s.spec_bytes().len() > 0 && s.spec_bytes().last() == LF),
{
    let bytes = s.as_bytes();
    bytes.len() > 0 && bytes[bytes.len() - 1] == LF
}

/// Returns the number of bytes that the trailing line break of `s` takes
/// up: two when a carriage return stands before the final line feed, else
/// one.
pub fn bytes_line_break(s: &str) -> (r: usize)
    requires
        s.spec_bytes().len() > 0,
        s.spec_bytes().last() == LF,
    ensures
        r == if s.spec_bytes().len() > 1 && s.spec_bytes()[s.spec_bytes().len() - 2] == CR {
            2usize
        } else {
            1usize
        },
{
    let bytes = s.as_bytes();
    if bytes.len() > 1 && bytes[bytes.len() - 2] == CR {
        2
    } else {
        1
    }
}

/// Moves a candidate split point of `s` to the nearest offset at which `s`
/// may be split: to the right with `WITH_RIGHT_BIAS`, else to the left. A
/// candidate at the end of `s` or beyond it gives the length of `s`.
pub fn adjust_split_point<const WITH_RIGHT_BIAS: bool>(s: &str, candidate: usize) -> (r: usize)
    ensures
        r <= s.spec_bytes().len(),
        valid_split(s.spec_bytes(), r as int),
        candidate >= s.spec_bytes().len() ==> r == s.spec_bytes().len(),
        candidate < s.spec_bytes().len() && WITH_RIGHT_BIAS ==> candidate <= r && forall|j: int|
            candidate <= j < r ==> !valid_split(s.spec_bytes(), j),
        candidate < s.spec_bytes().len() && !WITH_RIGHT_BIAS ==> r <= candidate && forall|j: int|
            r < j <= candidate ==> !valid_split(s.spec_bytes(), j),
{
    let ghost bytes = s.spec_bytes();
    proof {
        lemma_str_bytes(s);
    }
    let len = s.as_bytes().len();
    if candidate >= len {
        return len;
    }
    let mut point = candidate;
    if WITH_RIGHT_BIAS {
        while !s.is_char_boundary(point)
            invariant
                bytes == s.spec_bytes(),
                valid_utf8(bytes),
                bytes.len() <= usize::MAX,
                candidate <= point <= bytes.len(),
                is_char_boundary(bytes, bytes.len() as int),
                forall|j: int| candidate <= j < point ==> !is_char_boundary(bytes, j),
            decreases bytes.len() - point,
        {
            point = point + 1;
        }
        if is_splitting_crlf_pair(s, point) {
            proof {
                utf8_byte_ranges_bitwise(bytes[point as int]);
                lemma_boundary_after_ascii(bytes, point as int);
            }
            point = point + 1;
        }
    } else {
        while !s.is_char_boundary(point)
            invariant
                bytes == s.spec_bytes(),
                valid_utf8(bytes),
                0 <= point <= candidate < bytes.len(),
                is_char_boundary(bytes, 0),
                forall|j: int| point < j <= candidate ==> !is_char_boundary(bytes, j),
            decreases point,
        {
            point = point - 1;
        }
        if is_splitting_crlf_pair(s, point) {
            proof {
                utf8_byte_ranges_bitwise(bytes[point - 1]);
                is_char_boundary_iff_not_is_continuation_byte(bytes, point - 1);
            }
            point = point - 1;
        }
    }
    point
}

/// Returns a pair `(to_add, rest)`: `to_add` is the largest left part of
/// `text` that can be added to `current` without taking it over
/// `MAX_BYTES` bytes, moved to the right where that is needed to split
/// `text` between two characters and outside a CRLF pair; `rest` is what is
/// left of `text`. To a chunk that is full already goes nothing but the line
/// feed that completes its trailing carriage return.
pub fn rope_chunk_append<'a, const MAX_BYTES: usize>(current: &str, text: &'a str) -> (r: (
    &'a str,
    &'a str,
))
    ensures
        r.0.spec_bytes() + r.1.spec_bytes() == text.spec_bytes(),
        valid_split(text.spec_bytes(), r.0.spec_bytes().len() as int),
        current.spec_bytes().len() >= MAX_BYTES ==> r.0.spec_bytes().len() == (if current.spec_bytes().len()
            > 0 && current.spec_bytes().last() == CR && text.spec_bytes().len() > 0
            && text.spec_bytes()[0] == LF {
            1int
        } else {
            0int
        }),
        current.spec_bytes().len() < MAX_BYTES && text.spec_bytes().len() <= MAX_BYTES
            - current.spec_bytes().len() ==> r.0.spec_bytes().len() == text.spec_bytes().len(),
        current.spec_bytes().len() < MAX_BYTES && text.spec_bytes().len() > MAX_BYTES
            - current.spec_bytes().len() ==> {
            let room = MAX_BYTES - current.spec_bytes().len();
            let taken = r.0.spec_bytes().len() as int;
            &&& room <= taken
            &&& valid_split(text.spec_bytes(), taken)
            &&& forall|j: int| room <= j < taken ==> !valid_split(text.spec_bytes(), j)
        },
{
    let ghost bytes = text.spec_bytes();
    proof {
        lemma_str_bytes(text);
    }
    let current_len = current.as_bytes().len();
    let text_len = text.as_bytes().len();
    let split = if current_len >= MAX_BYTES {
        if current_len > 0 && ends_in_cr(current) && starts_with_lf(text) {
            proof {
                utf8_byte_ranges_bitwise(bytes[0]);
                lemma_boundary_after_ascii(bytes, 0);
            }
            1
        } else {
            0
        }
    } else if text_len <= MAX_BYTES - current_len {
        text_len
    } else {
        adjust_split_point::<true>(text, MAX_BYTES - current_len)
    };
    let r = text.split_at(split);
    proof {
        assert(r.0.spec_bytes() + r.1.spec_bytes() =~= bytes);
    }
    r
}

/// The bytes of a sequence of string slices, one after the other.
pub open spec fn concat_bytes(chunks: Seq<&str>) -> Seq<u8>
    decreases chunks.len(),
{
    if chunks.len() == 0 {
        Seq::empty()
    } else {
        concat_bytes(chunks.drop_last()) + chunks.last().spec_bytes()
    }
}

/// The bytes of the first chunks are the start of the bytes of all of them.
pub proof fn lemma_concat_bytes_prefix(chunks: Seq<&str>, k: int)
    requires
        0 <= k <= chunks.len(),
    ensures
        concat_bytes(chunks.take(k)).len() <= concat_bytes(chunks).len(),
        concat_bytes(chunks.take(k)) == concat_bytes(chunks).take(
            concat_bytes(chunks.take(k)).len() as int,
        ),
        k < chunks.len() ==> concat_bytes(chunks.take(k + 1)) == concat_bytes(chunks.take(k))
            + chunks[k].spec_bytes(),
    decreases chunks.len() - k,
{
    if k == chunks.len() {
        assert(chunks.take(k) =~= chunks);
        assert(concat_bytes(chunks).take(concat_bytes(chunks).len() as int) =~= concat_bytes(
            chunks,
        ));
    } else {
        lemma_concat_bytes_prefix(chunks, k + 1);
        assert(chunks.take(k + 1).drop_last() =~= chunks.take(k));
        let longer = concat_bytes(chunks.take(k + 1));
        assert(concat_bytes(chunks.take(k)) =~= concat_bytes(chunks).take(
            concat_bytes(chunks.take(k)).len() as int,
        )) by {
            assert(longer == concat_bytes(chunks.take(k)) + chunks[k].spec_bytes());
            assert(longer == concat_bytes(chunks).take(longer.len() as int));
        }
    }
}

/// Whether `n` bytes of `a` from the offset `a_from` on are the `n` bytes
/// of `b` from the offset `b_from` on.
pub fn bytes_match(a: &[u8], a_from: usize, b: &[u8], b_from: usize, n: usize) -> (r: bool)
    requires
        a_from + n <= a@.len(),
        b_from + n <= b@.len(),
    ensures
        r == (a@.subrange(a_from as int, a_from + n) == b@.subrange(b_from as int, b_from + n)),
{
    let a_len = a.len();
    let b_len = b.len();
    let mut k: usize = 0;
    while k < n
        invariant
            0 <= k <= n,
            a_from + n <= a@.len() == a_len,
            b_from + n <= b@.len() == b_len,
            a@.subrange(a_from as int, a_from + k) == b@.subrange(b_from as int, b_from + k),
        decreases n - k,
    {
        if a[a_from + k] != b[b_from + k] {
            proof {
                let x = a@.subrange(a_from as int, a_from + n);
                let y = b@.subrange(b_from as int, b_from + n);
                assert(x[k as int] != y[k as int]);
            }
            return false;
        }
        proof {
            assert(a@.subrange(a_from as int, a_from + k + 1) =~= a@.subrange(
                a_from as int,
                a_from + k,
            ).push(a@[a_from + k]));
            assert(b@.subrange(b_from as int, b_from + k + 1) =~= b@.subrange(
                b_from as int,
                b_from + k,
            ).push(b@[b_from + k]));
        }
        k = k + 1;
    }
    true
}

/// Checks whether the chunks, one after the other, are the string slice.
/// The chunks hold as many bytes as the string slice.
pub fn chunks_eq_str(chunks: &Vec<&str>, s: &str) -> (r: bool)
    requires
        concat_bytes(chunks@).len() == s.spec_bytes().len(),
    ensures
        r == (concat_bytes(chunks@) == s.spec_bytes()),
{
    let whole = s.as_bytes();
    let whole_len = whole.len();
    let ghost all = concat_bytes(chunks@);
    let mut checked: usize = 0;
    let mut i: usize = 0;
    proof {
        assert(chunks@.take(0) =~= Seq::<&str>::empty());
    }
    while i < chunks.len()
        invariant
            0 <= i <= chunks.len(),
            whole@ == s.spec_bytes(),
            all == concat_bytes(chunks@),
            all.len() == whole@.len() == whole_len,
            checked == concat_bytes(chunks@.take(i as int)).len(),
            all.take(checked as int) == whole@.take(checked as int),
        decreases chunks.len() - i,
    {
        let chunk = chunks[i].as_bytes();
        proof {
            lemma_concat_bytes_prefix(chunks@, i as int);
            lemma_concat_bytes_prefix(chunks@, i + 1);
        }
        if !bytes_match(chunk, 0, whole, checked, chunk.len()) {
            proof {
                let end = checked + chunk@.len();
                assert(chunk@.subrange(0, chunk@.len() as int) =~= chunk@);
                assert(all.take(end).subrange(checked as int, end) =~= chunk@);
                if all == whole@ {
                    assert(all.take(end).subrange(checked as int, end) =~= whole@.subrange(
                        checked as int,
                        end,
                    ));
                }
            }
            return false;
        }
        proof {
            let end = checked + chunk@.len();
            assert(chunk@.subrange(0, chunk@.len() as int) =~= chunk@);
            assert(all.take(end) =~= all.take(checked as int) + chunk@);
            assert(whole@.take(end) =~= whole@.take(checked as int) + whole@.subrange(
                checked as int,
                end,
            ));
        }
        checked = checked + chunk.len();
        i = i + 1;
    }
    proof {
        assert(chunks@.take(chunks@.len() as int) =~= chunks@);
        assert(all.take(all.len() as int) =~= all);
        assert(whole@.take(whole@.len() as int) =~= whole@);
    }
    true
}

/// Checks whether two sequences of chunks hold the same bytes, however
/// they are divided into chunks. The two hold as many bytes as each other.
pub fn chunks_eq_chunks(lhs: &Vec<&str>, rhs: &Vec<&str>) -> (r: bool)
    requires
        concat_bytes(lhs@).len() == concat_bytes(rhs@).len(),
    ensures
        r == (concat_bytes(lhs@) == concat_bytes(rhs@)),
{
    let ghost l = concat_bytes(lhs@);
    let ghost r = concat_bytes(rhs@);
    let nothing: &[u8] = "".as_bytes();
    proof {
        reveal_strlit("");
        assert(nothing@ =~= Seq::<u8>::empty()) by {
            assert(""@ =~= Seq::<char>::empty());
        }
        assert(lhs@.take(0) =~= Seq::<&str>::empty());
        assert(rhs@.take(0) =~= Seq::<&str>::empty());
    }
    let mut li: usize = 0;
    let mut ri: usize = 0;
    let mut left: &[u8] = nothing;
    let mut right: &[u8] = nothing;
    if lhs.len() > 0 {
        left = lhs[0].as_bytes();
        li = 1;
    }
    if rhs.len() > 0 {
        right = rhs[0].as_bytes();
        ri = 1;
    }
    let ghost mut done: int = 0;
    proof {
        lemma_concat_bytes_prefix(lhs@, 0);
        lemma_concat_bytes_prefix(rhs@, 0);
        lemma_concat_bytes_prefix(lhs@, li as int);
        lemma_concat_bytes_prefix(rhs@, ri as int);
        assert(concat_bytes(Seq::<&str>::empty()) =~= Seq::<u8>::empty());
        if li == 1 {
            let longer = concat_bytes(lhs@.take(1));
            assert(longer =~= left@);
            assert(l.take(longer.len() as int) =~= l.subrange(0, left@.len() as int));
        }
        if ri == 1 {
            let longer = concat_bytes(rhs@.take(1));
            assert(longer =~= right@);
            assert(r.take(longer.len() as int) =~= r.subrange(0, right@.len() as int));
        }
        assert(left@ =~= l.subrange(0, left@.len() as int));
        assert(right@ =~= r.subrange(0, right@.len() as int));
        assert(l.take(0) =~= r.take(0));
    }
    loop
        invariant
            l == concat_bytes(lhs@),
            r == concat_bytes(rhs@),
            l.len() == r.len(),
            nothing@.len() == 0,
            li <= lhs.len(),
            ri <= rhs.len(),
            0 <= done,
            done + left@.len() == concat_bytes(lhs@.take(li as int)).len(),
            done + right@.len() == concat_bytes(rhs@.take(ri as int)).len(),
            done + left@.len() <= l.len(),
            done + right@.len() <= r.len(),
            left@ == l.subrange(done, done + left@.len()),
            right@ == r.subrange(done, done + right@.len()),
            l.take(done) == r.take(done),
        decreases (lhs.len() - li) + (rhs.len() - ri),
    {
        let left_len = left.len();
        let right_len = right.len();
        if left_len < right_len {
            if !bytes_match(left, 0, right, 0, left_len) {
                proof {
                    assert(left@.subrange(0, left_len as int) =~= l.subrange(
                        done,
                        done + left_len,
                    ));
                    assert(right@.subrange(0, left_len as int) =~= r.subrange(
                        done,
                        done + left_len,
                    ));
                }
                return false;
            }
            proof {
                assert(left@.subrange(0, left_len as int) =~= left@);
                assert(l.take(done + left_len) =~= l.take(done) + left@);
                assert(r.take(done + left_len) =~= r.take(done) + right@.subrange(
                    0,
                    left_len as int,
                ));
                assert(right@.subrange(left_len as int, right_len as int) =~= r.subrange(
                    done + left_len,
                    done + right_len,
                ));
                done = done + left_len;
            }
            right = slice_subrange(right, left_len, right_len);
            left = nothing;
            proof {
                assert(left@ =~= l.subrange(done, done));
            }
        } else {
            if !bytes_match(left, 0, right, 0, right_len) {
                proof {
                    assert(left@.subrange(0, right_len as int) =~= l.subrange(
                        done,
                        done + right_len,
                    ));
                    assert(right@.subrange(0, right_len as int) =~= r.subrange(
                        done,
                        done + right_len,
                    ));
                }
                return false;
            }
            proof {
                assert(right@.subrange(0, right_len as int) =~= right@);
                assert(r.take(done + right_len) =~= r.take(done) + right@);
                assert(l.take(done + right_len) =~= l.take(done) + left@.subrange(
                    0,
                    right_len as int,
                ));
                assert(left@.subrange(right_len as int, left_len as int) =~= l.subrange(
                    done + right_len,
                    done + left_len,
                ));
                done = done + right_len;
            }
            left = slice_subrange(left, right_len, left_len);
            right = nothing;
            proof {
                assert(right@ =~= r.subrange(done, done));
            }
        }
        if left.len() == 0 {
            if li < lhs.len() {
                proof {
                    lemma_concat_bytes_prefix(lhs@, li as int);
                    lemma_concat_bytes_prefix(lhs@, li + 1);
                }
                left = lhs[li].as_bytes();
                li = li + 1;
                proof {
                    let longer = concat_bytes(lhs@.take(li as int));
                    assert(longer.subrange(done, longer.len() as int) =~= left@);
                    assert(l.take(longer.len() as int).subrange(done, longer.len() as int)
                        =~= l.subrange(done, done + left@.len()));
                }
            } else {
                proof {
                    assert(lhs@.take(li as int) =~= lhs@);
                    assert(l.take(done) =~= l);
                    assert(r.take(done) =~= r);
                }
                return true;
            }
        }
        if right.len() == 0 {
            if ri < rhs.len() {
                proof {
                    lemma_concat_bytes_prefix(rhs@, ri as int);
                    lemma_concat_bytes_prefix(rhs@, ri + 1);
                }
                right = rhs[ri].as_bytes();
                ri = ri + 1;
                proof {
                    let longer = concat_bytes(rhs@.take(ri as int));
                    assert(longer.subrange(done, longer.len() as int) =~= right@);
                    assert(r.take(longer.len() as int).subrange(done, longer.len() as int)
                        =~= r.subrange(done, done + right@.len()));
                }
            } else {
                proof {
                    assert(rhs@.take(ri as int) =~= rhs@);
                    assert(l.take(done) =~= l);
                    assert(r.take(done) =~= r);
                }
                return true;
            }
        }
    }
}

/// What `char::escape_debug` yields for a character.
pub uninterp spec fn escape_debug_of(c: char) -> Seq<char>;

/// The characters that stand for `c` in debug output: its escape
/// sequence, or `c` itself where that sequence is a single character.
pub open spec fn debug_char(c: char, escaped: Seq<char>) -> Seq<char> {
    if escaped.len() == 1 {
        seq![c]
    } else {
        escaped
    }
}

/// The debug output for a sequence of characters.
pub open spec fn debug_text(chars: Seq<char>) -> Seq<char>
    decreases chars.len(),
{
    if chars.len() == 0 {
        Seq::empty()
    } else {
        debug_text(chars.drop_last()) + debug_char(chars.last(), escape_debug_of(chars.last()))
    }
}

/// The debug output for a sequence of chunks.
pub open spec fn debug_chunks_text(chunks: Seq<&str>) -> Seq<char>
    decreases chunks.len(),
{
    if chunks.len() == 0 {
        Seq::empty()
    } else {
        debug_chunks_text(chunks.drop_last()) + debug_text(chunks.last()@)
    }
}

/// The escape sequence of a character: `char::escape_debug`, which yields
/// the characters that stand for `c` in the debug output of a string.
#[verifier::external_body]
fn escape_debug(c: char) -> (r: Vec<char>)
    ensures
        r@ == escape_debug_of(c),
{
    c.escape_debug().collect()
}

/// Appends a character to a string: `String::push`.
#[verifier::external_body]
fn string_push(s: &mut String, c: char)
    ensures
        final(s)@ == old(s)@.push(c),
{
    s.push(c)
}

/// Appends to `out` the characters that stand for `c` in debug output,
/// given the escape sequence of `c`.
pub fn push_escaped(out: &mut String, c: char, escaped: &Vec<char>)
    ensures
        final(out)@ == old(out)@ + debug_char(c, escaped@),
{
    if escaped.len() == 1 {
        string_push(out, c);
        proof {
            assert(old(out)@.push(c) =~= old(out)@ + seq![c]);
        }
    } else {
        let mut k: usize = 0;
        proof {
            assert(out@ =~= old(out)@ + escaped@.take(0));
        }
        while k < escaped.len()
            invariant
                0 <= k <= escaped.len(),
                out@ == old(out)@ + escaped@.take(k as int),
            decreases escaped.len() - k,
        {
            string_push(out, escaped[k]);
            proof {
                assert(old(out)@ + escaped@.take(k + 1) =~= (old(out)@ + escaped@.take(
                    k as int,
                )).push(escaped@[k as int]));
            }
            k = k + 1;
        }
        proof {
            assert(escaped@.take(escaped@.len() as int) =~= escaped@);
        }
    }
}

/// The debug output of the text that the chunks hold: that of a string
/// slice, but without the double quotes around it.
pub fn debug_chunks(chunks: &Vec<&str>) -> (r: String)
    ensures
        r@ == debug_chunks_text(chunks@),
{
    let mut out = String::new();
    let mut i: usize = 0;
    proof {
        assert(chunks@.take(0) =~= Seq::<&str>::empty());
    }
    while i < chunks.len()
        invariant
            0 <= i <= chunks.len(),
            out@ == debug_chunks_text(chunks@.take(i as int)),
        decreases chunks.len() - i,
    {
        let chunk = chunks[i];
        let ghost before = out@;
        proof {
            assert(chunk@.take(0) =~= Seq::<char>::empty());
            assert(before + debug_text(Seq::<char>::empty()) =~= before);
        }
        for c in it: chunk.chars()
            invariant
                it.seq() == chunk@,
                out@ == before + debug_text(chunk@.take(it.index() as int)),
        {
            let escaped = escape_debug(c);
            proof {
                let k = it.index() as int;
                assert(chunk@.take(k + 1).drop_last() =~= chunk@.take(k));
                assert(before + debug_text(chunk@.take(k + 1)) =~= (before + debug_text(
                    chunk@.take(k),
                )) + debug_char(c, escaped@));
            }
            push_escaped(&mut out, c, &escaped);
        }
        proof {
            assert(chunk@.take(chunk@.len() as int) =~= chunk@);
            assert(chunks@.take(i + 1).drop_last() =~= chunks@.take(i as int));
        }
        i = i + 1;
    }
    proof {
        assert(chunks@.take(chunks@.len() as int) =~= chunks@);
    }
    out
}

} // verus!
