//! Sender-side chunking and receiver-side reassembly.
//!
//! The sender base64-encodes the file bytes and slices the text into
//! consecutive pieces of exactly `CHUNK_SIZE` characters, the last piece
//! possibly shorter; production order is the only record of ordering.  The
//! receiver concatenates the chunks it accepted, in order, trims incidental
//! surrounding whitespace, and base64-decodes the result.

use vstd::prelude::*;
use vstd::string::StrSliceExecFns;
use vstd::string::StringExecFns;
use crate::b64::base64_bytes_of;
use crate::b64::base64_of;
use crate::b64::is_base64_char;

verus! {

/// The encode step was handed an empty byte buffer: a pointless transfer,
/// rejected up front.
#[derive(Debug, Clone, Copy, PartialEq, Eq)]
pub enum EncodeError {
    EmptyInput,
}

/// Why reassembly of the received chunks failed.
#[derive(Debug, Clone, Copy, PartialEq, Eq)]
pub enum ReassembleError {
    /// Reassembly was invoked with zero chunks.
    EmptySequence,
    /// The concatenation of the received chunks is not valid base64: a strong
    /// signal that chunks were missed, duplicated undetected, or observed out
    /// of order.
    Base64Decode,
}

/// The views of a sequence of owned strings.
pub open spec fn chunk_views(cs: Seq<String>) -> Seq<Seq<char>> {
    Seq::new(cs.len(), |i: int| cs[i]@)
}

/// The chunks that `text` splits into: consecutive pieces of exactly `k`
/// characters, the last piece possibly shorter, in production order.
pub open spec fn chunk_seq(text: Seq<char>, k: nat) -> Seq<Seq<char>>
    decreases text.len(),
{
    if k == 0 || text.len() == 0 {
        Seq::empty()
    } else if text.len() <= k {
        seq![text]
    } else {
        seq![text.take(k as int)] + chunk_seq(text.skip(k as int), k)
    }
}

/// Concatenation of a sequence of character sequences, in order, with no
/// separator.
pub open spec fn concat_of(cs: Seq<Seq<char>>) -> Seq<char>
    decreases cs.len(),
{
    if cs.len() == 0 {
        Seq::empty()
    } else {
        cs[0] + concat_of(cs.drop_first())
    }
}

/// Splitting and then concatenating gives the text back.
pub proof fn lemma_chunk_seq_concat(text: Seq<char>, k: nat)
    requires
        k > 0,
    ensures
        concat_of(chunk_seq(text, k)) == text,
    decreases text.len(),
{
    if text.len() == 0 {
        assert(concat_of(chunk_seq(text, k)) =~= text);
    } else if text.len() <= k {
        let cs = chunk_seq(text, k);
        assert(cs =~= seq![text]);
        assert(cs.drop_first().len() == 0);
        assert(concat_of(cs) =~= text + concat_of(cs.drop_first()));
        assert(concat_of(cs) =~= text);
    } else {
        lemma_chunk_seq_concat(text.skip(k as int), k);
        assert(chunk_seq(text, k).drop_first() =~= chunk_seq(text.skip(k as int), k));
        assert(concat_of(chunk_seq(text, k)) =~= text.take(k as int) + text.skip(k as int));
        assert(text.take(k as int) + text.skip(k as int) =~= text);
    }
}

/// The number of chunks is the ceiling of `text.len() / k`.
pub proof fn lemma_chunk_seq_count(text: Seq<char>, k: nat)
    requires
        k > 0,
    ensures
        chunk_seq(text, k).len() == crate::spec_chunk_count(text.len(), k),
    decreases text.len(),
{
    let len = text.len() as int;
    let d = k as int;
    if text.len() == 0 {
        vstd::arithmetic::div_mod::lemma_basic_div(d - 1, d);
    } else if text.len() <= k {
        vstd::arithmetic::div_mod::lemma_basic_div(len - 1, d);
        vstd::arithmetic::div_mod::lemma_div_plus_one(len - 1, d);
    } else {
        lemma_chunk_seq_count(text.skip(d), k);
        vstd::arithmetic::div_mod::lemma_div_plus_one(len - 1, d);
        assert((len - d) + d - 1 == len - 1);
    }
}

/// Every chunk but the last has exactly `k` characters; the last has between
/// 1 and `k`.
pub proof fn lemma_chunk_seq_sizes(text: Seq<char>, k: nat)
    requires
        k > 0,
    ensures
        forall|i: int|
            0 <= i < chunk_seq(text, k).len() - 1 ==> (#[trigger] chunk_seq(text, k)[i]).len()
                == k,
        chunk_seq(text, k).len() > 0 ==> {
            let last = chunk_seq(text, k).last();
            1 <= last.len() <= k
        },
    decreases text.len(),
{
    if text.len() > k {
        lemma_chunk_seq_sizes(text.skip(k as int), k);
        let cs = chunk_seq(text, k);
        let rest = chunk_seq(text.skip(k as int), k);
        assert(text.skip(k as int).len() > 0);
        assert(cs.last() == rest.last());
        assert(forall|i: int| 0 <= i < cs.len() - 1 ==> (#[trigger] cs[i]).len() == k) by {
            assert(forall|i: int|
                1 <= i < cs.len() - 1 ==> cs[i] == #[trigger] rest[i - 1] && rest[i - 1].len()
                    == k);
        }
    }
}

/// Every character of every chunk is a character of the text.
pub proof fn lemma_chunk_seq_chars(text: Seq<char>, k: nat, p: spec_fn(char) -> bool)
    requires
        k > 0,
        forall|i: int| 0 <= i < text.len() ==> p(#[trigger] text[i]),
    ensures
        forall|i: int, j: int|
            0 <= i < chunk_seq(text, k).len() && 0 <= j < chunk_seq(text, k)[i].len() ==> p(
                #[trigger] chunk_seq(text, k)[i][j],
            ),
    decreases text.len(),
{
    if text.len() > k {
        assert(forall|i: int|
            0 <= i < text.skip(k as int).len() ==> p(#[trigger] text.skip(k as int)[i]));
        lemma_chunk_seq_chars(text.skip(k as int), k, p);
        let cs = chunk_seq(text, k);
        let rest = chunk_seq(text.skip(k as int), k);
        assert forall|i: int, j: int|
            0 <= i < cs.len() && 0 <= j < cs[i].len() implies p(#[trigger] cs[i][j]) by {
            if i == 0 {
                assert(cs[0][j] == text[j]);
            } else {
                assert(cs[i] == rest[i - 1]);
            }
        }
    }
}

/// Splits `data` into consecutive pieces of exactly `chunk_size` characters,
/// the last piece possibly shorter, in production order.  Produces
/// `ceil(len / chunk_size)` chunks.
pub fn split_data(data: &str, chunk_size: usize) -> (r: Vec<String>)
    requires
        chunk_size > 0,
    ensures
        chunk_views(r@) == chunk_seq(data@, chunk_size as nat),
        r@.len() == crate::spec_chunk_count(data@.len(), chunk_size as nat),
        forall|i: int| 0 <= i < r@.len() - 1 ==> (#[trigger] r@[i])@.len() == chunk_size,
        r@.len() > 0 ==> 1 <= r@.last()@.len() <= chunk_size,
{
    let ghost k = chunk_size as nat;
    let n = data.unicode_len();
    let mut out: Vec<String> = Vec::new();
    let mut pos: usize = 0;
    proof {
        assert(data@.skip(0) =~= data@);
    }
    while pos < n
        invariant
            pos <= n,
            n == data@.len(),
            chunk_size > 0,
            k == chunk_size as nat,
            chunk_seq(data@, k) =~= chunk_views(out@) + chunk_seq(data@.skip(pos as int), k),
            pos < n || chunk_views(out@) =~= chunk_seq(data@, k),
        decreases n - pos,
    {
        let remaining = n - pos;
        let end = if remaining <= chunk_size {
            n
        } else {
            pos + chunk_size
        };
        let piece = data.substring_char(pos, end).to_owned();
        proof {
            let tail = data@.skip(pos as int);
            if remaining <= chunk_size {
                assert(piece@ =~= tail);
                assert(chunk_seq(tail, k) =~= seq![piece@]);
                assert(data@.skip(end as int) =~= Seq::<char>::empty());
            } else {
                assert(piece@ =~= tail.take(k as int));
                assert(tail.skip(k as int) =~= data@.skip(end as int));
                assert(chunk_seq(tail, k) =~= seq![piece@] + chunk_seq(
                    data@.skip(end as int),
                    k,
                ));
            }
            assert(chunk_views(out@.push(piece)) =~= chunk_views(out@) + seq![piece@]);
        }
        out.push(piece);
        pos = end;
    }
    proof {
        if n == 0 {
            assert(chunk_views(out@) =~= chunk_seq(data@, k));
        }
        lemma_chunk_seq_count(data@, k);
        lemma_chunk_seq_sizes(data@, k);
        assert(forall|i: int|
            0 <= i < out@.len() ==> (#[trigger] out@[i])@ == chunk_views(out@)[i]);
    }
    out
}

/// Whether `c` has Unicode's `White_Space` property, the set that trimming
/// removes from the ends of the reassembled text.
pub open spec fn is_space_char(c: char) -> bool {
    let u = c as u32;
    (9 <= u <= 13) || u == 32 || u == 0x85 || u == 0xa0 || u == 0x1680 || (0x2000 <= u <= 0x200a)
        || u == 0x2028 || u == 0x2029 || u == 0x202f || u == 0x205f || u == 0x3000
}

fn is_space(c: char) -> (r: bool)
    ensures
        r == is_space_char(c),
{
    let u = c as u32;
    (9 <= u && u <= 13) || u == 32 || u == 0x85 || u == 0xa0 || u == 0x1680 || (0x2000 <= u && u
        <= 0x200a) || u == 0x2028 || u == 0x2029 || u == 0x202f || u == 0x205f || u == 0x3000
}

/// `s` without its leading whitespace.
pub open spec fn trim_start_spec(s: Seq<char>) -> Seq<char>
    decreases s.len(),
{
    if s.len() > 0 && is_space_char(s[0]) {
        trim_start_spec(s.drop_first())
    } else {
        s
    }
}

/// `s` without its trailing whitespace.
pub open spec fn trim_end_spec(s: Seq<char>) -> Seq<char>
    decreases s.len(),
{
    if s.len() > 0 && is_space_char(s.last()) {
        trim_end_spec(s.drop_last())
    } else {
        s
    }
}

/// `s` without surrounding whitespace.
pub open spec fn trim_spec(s: Seq<char>) -> Seq<char> {
    trim_end_spec(trim_start_spec(s))
}

proof fn lemma_trim_start_skip(s: Seq<char>, i: int)
    requires
        0 <= i <= s.len(),
        forall|j: int| 0 <= j < i ==> is_space_char(#[trigger] s[j]),
        i == s.len() || !is_space_char(s[i]),
    ensures
        trim_start_spec(s) == s.skip(i),
    decreases i,
{
    if i == 0 {
        assert(s.skip(0) =~= s);
    } else {
        let t = s.drop_first();
        assert(t =~= s.skip(1));
        assert(forall|j: int| 0 <= j < i - 1 ==> is_space_char(#[trigger] t[j]));
        lemma_trim_start_skip(t, i - 1);
        assert(t.skip(i - 1) =~= s.skip(i));
    }
}

proof fn lemma_trim_end_take(s: Seq<char>, i: int)
    requires
        0 <= i <= s.len(),
        forall|j: int| i <= j < s.len() ==> is_space_char(#[trigger] s[j]),
        i == 0 || !is_space_char(s[i - 1]),
    ensures
        trim_end_spec(s) == s.take(i),
    decreases s.len() - i,
{
    if i == s.len() {
        assert(s.take(i) =~= s);
    } else {
        let t = s.drop_last();
        assert(forall|j: int| i <= j < t.len() ==> is_space_char(#[trigger] t[j]));
        lemma_trim_end_take(t, i);
        assert(t.take(i) =~= s.take(i));
    }
}

/// Trimming text with no surrounding whitespace gives the text back.
pub proof fn lemma_trim_no_space(s: Seq<char>)
    requires
        forall|i: int| 0 <= i < s.len() ==> !is_space_char(#[trigger] s[i]),
    ensures
        trim_spec(s) == s,
{
    lemma_trim_start_skip(s, 0);
    assert(s.skip(0) =~= s);
    lemma_trim_end_take(s, s.len() as int);
    assert(s.take(s.len() as int) =~= s);
}

/// Removes the surrounding whitespace of `s`.
pub fn trim_str(s: &str) -> (r: String)
    ensures
        r@ == trim_spec(s@),
{
    let n = s.unicode_len();
    let mut lo: usize = 0;
    while lo < n && is_space(s.get_char(lo))
        invariant
            lo <= n,
            n == s@.len(),
            forall|j: int| 0 <= j < lo ==> is_space_char(#[trigger] s@[j]),
        decreases n - lo,
    {
        lo = lo + 1;
    }
    let mut hi: usize = n;
    while hi > lo && is_space(s.get_char(hi - 1))
        invariant
            lo <= hi <= n,
            n == s@.len(),
            forall|j: int| hi <= j < n ==> is_space_char(#[trigger] s@[j]),
        decreases hi,
    {
        hi = hi - 1;
    }
    proof {
        lemma_trim_start_skip(s@, lo as int);
        let t = s@.skip(lo as int);
        assert(forall|j: int| hi - lo <= j < t.len() ==> is_space_char(#[trigger] t[j]));
        lemma_trim_end_take(t, hi - lo);
        assert(t.take(hi - lo) =~= s@.subrange(lo as int, hi as int));
    }
    s.substring_char(lo, hi).to_owned()
}

/// Every character of `s` can occur in base64 text.
pub open spec fn all_base64(s: Seq<char>) -> bool {
    forall|i: int| 0 <= i < s.len() ==> is_base64_char(#[trigger] s[i])
}

/// What `encode` promises of its output: `chunks` is the base64 text of
/// `data`, split into consecutive `CHUNK_SIZE`-character pieces in
/// production order.
pub open spec fn is_chunking_of(chunks: Seq<Seq<char>>, data: Seq<u8>) -> bool {
    &&& data.len() > 0
    &&& base64_of(data).len() == 4 * ((data.len() + 2) / 3)
    &&& chunks == chunk_seq(base64_of(data), crate::CHUNK_SIZE as nat)
    &&& forall|i: int| 0 <= i < chunks.len() ==> all_base64(#[trigger] chunks[i])
}

/// Encodes a file for transfer: base64-encodes the byte buffer and splits
/// the text into chunks of `CHUNK_SIZE` characters, the last possibly
/// shorter.  An empty buffer signals a pointless transfer and is rejected.
pub fn encode(data: &Vec<u8>) -> (r: Result<Vec<String>, EncodeError>)
    ensures
        r == Err::<Vec<String>, EncodeError>(EncodeError::EmptyInput) <==> data@.len() == 0,
        r matches Ok(cs) ==> is_chunking_of(chunk_views(cs@), data@),
{
    if data.len() == 0 {
        return Err(EncodeError::EmptyInput);
    }
    let text = crate::b64::to_base64(data.as_slice());
    let chunks = split_data(text.as_str(), crate::CHUNK_SIZE);
    proof {
        let k = crate::CHUNK_SIZE as nat;
        lemma_chunk_seq_chars(text@, k, |c: char| is_base64_char(c));
        let cs = chunk_views(chunks@);
        assert forall|i: int| 0 <= i < cs.len() implies all_base64(#[trigger] cs[i]) by {
            assert(forall|j: int|
                0 <= j < cs[i].len() ==> is_base64_char(#[trigger] chunk_seq(text@, k)[i][j]));
        }
    }
    Ok(chunks)
}

proof fn lemma_concat_push(cs: Seq<Seq<char>>, x: Seq<char>)
    ensures
        concat_of(cs.push(x)) == concat_of(cs) + x,
    decreases cs.len(),
{
    if cs.len() == 0 {
        assert(cs.push(x).drop_first() =~= Seq::<Seq<char>>::empty());
        assert(concat_of(cs.push(x)) =~= concat_of(cs) + x) by {
            reveal_with_fuel(concat_of, 2);
        }
    } else {
        let tail = cs.drop_first();
        assert(cs.push(x).drop_first() =~= tail.push(x));
        lemma_concat_push(tail, x);
        assert(concat_of(cs.push(x)) == cs.push(x)[0] + concat_of(tail.push(x)));
        assert(cs.push(x)[0] == cs[0]);
        assert(cs[0] + (concat_of(tail) + x) =~= (cs[0] + concat_of(tail)) + x);
        assert(concat_of(cs) == cs[0] + concat_of(tail));
    }
}

proof fn lemma_concat_all_base64(cs: Seq<Seq<char>>)
    requires
        forall|i: int| 0 <= i < cs.len() ==> all_base64(#[trigger] cs[i]),
    ensures
        all_base64(concat_of(cs)),
    decreases cs.len(),
{
    if cs.len() > 0 {
        assert(forall|i: int|
            0 <= i < cs.drop_first().len() ==> all_base64(#[trigger] cs.drop_first()[i]));
        lemma_concat_all_base64(cs.drop_first());
        assert(all_base64(cs[0]));
        assert forall|i: int| 0 <= i < concat_of(cs).len() implies is_base64_char(
            #[trigger] concat_of(cs)[i],
        ) by {
            if i < cs[0].len() {
                assert(concat_of(cs)[i] == cs[0][i]);
            } else {
                assert(concat_of(cs)[i] == concat_of(cs.drop_first())[i - cs[0].len()]);
            }
        }
    }
}

/// Reassembles the received chunks: concatenates them in first-seen order
/// with no separator, trims incidental surrounding whitespace, and
/// base64-decodes the result.  No further validation is performed: a
/// malformed but base64-valid reconstruction is accepted as is.  Yet an
/// accepted result pins the input down — the trimmed concatenation is
/// exactly the base64 text of the returned bytes — so chunks observed out
/// of order can reassemble to the sender's bytes only if the reordering
/// left the concatenation unchanged.
pub fn reassemble(chunks: &Vec<String>) -> (r: Result<Vec<u8>, ReassembleError>)
    ensures
        r == Err::<Vec<u8>, ReassembleError>(ReassembleError::EmptySequence) <==> chunks@.len()
            == 0,
        chunks@.len() > 0 ==> {
            let t = trim_spec(concat_of(chunk_views(chunks@)));
            &&& (r is Ok <==> base64_bytes_of(t) is Some)
            &&& (r matches Ok(v) ==> Some(v@) == base64_bytes_of(t) && t == base64_of(v@))
            &&& (base64_bytes_of(t) is None ==> r == Err::<Vec<u8>, ReassembleError>(
                ReassembleError::Base64Decode,
            ))
            &&& forall|b: Seq<u8>| t == base64_of(b) ==> (r matches Ok(v) && v@ == b)
        },
{
    if chunks.len() == 0 {
        return Err(ReassembleError::EmptySequence);
    }
    let ghost views = chunk_views(chunks@);
    let mut combined = String::new();
    let mut i: usize = 0;
    proof {
        assert(views.take(0) =~= Seq::<Seq<char>>::empty());
    }
    while i < chunks.len()
        invariant
            i <= chunks@.len(),
            views == chunk_views(chunks@),
            combined@ == concat_of(views.take(i as int)),
        decreases chunks@.len() - i,
    {
        proof {
            assert(views.take(i + 1) =~= views.take(i as int).push(views[i as int]));
            lemma_concat_push(views.take(i as int), views[i as int]);
        }
        combined.append(chunks[i].as_str());
        i = i + 1;
    }
    proof {
        assert(views.take(chunks@.len() as int) =~= views);
    }
    let trimmed = trim_str(combined.as_str());
    match crate::b64::from_base64(trimmed.as_str()) {
        Ok(v) => Ok(v),
        Err(_) => Err(ReassembleError::Base64Decode),
    }
}

/// What a chunk sequence must satisfy for `reassemble` to recover `data`:
/// its concatenation trims to exactly the base64 text of `data`.
pub open spec fn reassembles_to(chunks: Seq<Seq<char>>, data: Seq<u8>) -> bool {
    trim_spec(concat_of(chunks)) == base64_of(data)
}

/// Round-trip law: the chunks that `encode` produces from a non-empty byte
/// buffer, kept in production order with no loss and no duplication, satisfy
/// `reassembles_to`; by `reassemble`'s contract, reassembling them therefore
/// returns exactly the original bytes.
pub proof fn lemma_round_trip(data: Seq<u8>, chunks: Seq<Seq<char>>)
    requires
        is_chunking_of(chunks, data),
    ensures
        reassembles_to(chunks, data),
        chunks.len() > 0,
{
    let text = base64_of(data);
    let k = crate::CHUNK_SIZE as nat;
    lemma_chunk_seq_concat(text, k);
    lemma_concat_all_base64(chunks);
    assert forall|i: int| 0 <= i < text.len() implies !is_space_char(#[trigger] text[i]) by {
        assert(is_base64_char(text[i]));
    }
    lemma_trim_no_space(text);
    assert((data.len() + 2) / 3 >= 1) by {
        vstd::arithmetic::div_mod::lemma_div_by_self(3);
        vstd::arithmetic::div_mod::lemma_div_is_ordered(3, data.len() as int + 2, 3);
    }
}

/// Out-of-order law: `reassemble` ensures that the trimmed concatenation of
/// an accepted chunk sequence is exactly the base64 text of the bytes it
/// returns; so whenever chunks observed out of order concatenate to
/// something other than the base64 text of the sender's `data`, a
/// reassembly that succeeds returns bytes that differ from `data` — silent
/// corruption, never a silent success with the right bytes.
pub proof fn lemma_out_of_order_differs(chunks: Seq<Seq<char>>, data: Seq<u8>, result: Seq<u8>)
    requires
        trim_spec(concat_of(chunks)) == base64_of(result),
        trim_spec(concat_of(chunks)) != base64_of(data),
    ensures
        result != data,
{
}

} // verus!
