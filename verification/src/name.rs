//! The domain-name codec.
//!
//! Encoding turns a dotted name into length-prefixed labels ending in a zero
//! byte.  Decoding reads labels from an offset into the full message buffer,
//! following compression pointers: a length byte with its top two bits set
//! holds, together with the next byte, a 14-bit offset from the start of the
//! buffer at which the name continues.  The decoder caps the number of jumps
//! it follows, so a pointer cycle in a hostile packet is reported as a
//! decode failure instead of looping forever.

use vstd::prelude::*;

verus! {

use vstd::string::StringSliceAdditionalSpecFns;
use vstd::utf8::decode_utf8;
use vstd::utf8::encode_utf8;
use vstd::utf8::valid_utf8;
use crate::error::DnsError;
use crate::error::truncated_error;
use crate::text::decodes_lossy;
use crate::text::lossy_string;
use crate::wire::append_range;

/// How many compression pointers the decoder follows within one name before
/// it gives up and reports the chain as malformed.
pub const MAX_POINTER_JUMPS: usize = 128;

/// The byte value of `.`, which separates labels in the dotted form.
pub const DOT: u8 = 46;

/// True of a length byte whose top two bits are both set: the byte starts a
/// two-byte compression pointer rather than a label.
pub open spec fn is_pointer_byte(x: u8) -> bool {
    x >= 0xC0
}

/// The 14-bit offset held by the compression pointer at offset `p` of `b`:
/// the low six bits of the first byte followed by all eight of the second.
pub open spec fn pointer_target(b: Seq<u8>, p: int) -> int
    recommends
        0 <= p,
        p + 2 <= b.len(),
        is_pointer_byte(b[p]),
{
    (b[p] - 0xC0) * 256 + b[p + 1]
}

/// The labels of the name stored at offset `p` of `b`, each as its raw
/// bytes, following at most `jumps` compression pointers; `None` when a read
/// would leave the buffer or the jump budget runs out.
pub open spec fn name_labels_at(b: Seq<u8>, p: int, jumps: nat) -> Option<Seq<Seq<u8>>>
    decreases jumps, (if p <= b.len() { b.len() - p } else { 0 }),
{
    if !(0 <= p < b.len()) {
        None
    } else if is_pointer_byte(b[p]) {
        if p + 2 <= b.len() {
            if jumps == 0 {
                None
            } else {
                name_labels_at(b, pointer_target(b, p), (jumps - 1) as nat)
            }
        } else {
            None
        }
    } else if b[p] == 0 {
        Some(Seq::empty())
    } else if p + 1 + b[p] <= b.len() {
        match name_labels_at(b, p + 1 + b[p], jumps) {
            Some(rest) => Some(seq![b.subrange(p + 1, p + 1 + b[p])] + rest),
            None => None,
        }
    } else {
        None
    }
}

/// The offset just past the occurrence of the name at offset `p` of `b` in
/// the byte stream: past the terminating zero when the name is stored plain,
/// or past the first pointer when compression takes over; `None` when the
/// stream ends inside the name.
pub open spec fn name_end_at(b: Seq<u8>, p: int) -> Option<int>
    decreases (if p <= b.len() { b.len() - p } else { 0 }),
{
    if !(0 <= p < b.len()) {
        None
    } else if is_pointer_byte(b[p]) {
        if p + 2 <= b.len() {
            Some(p + 2)
        } else {
            None
        }
    } else if b[p] == 0 {
        Some(p + 1)
    } else if p + 1 + b[p] <= b.len() {
        name_end_at(b, p + 1 + b[p])
    } else {
        None
    }
}

/// The labels joined with dots: the byte form of the dotted name.
pub open spec fn join_labels(ls: Seq<Seq<u8>>) -> Seq<u8>
    decreases ls.len(),
{
    if ls.len() == 0 {
        Seq::empty()
    } else if ls.len() == 1 {
        ls[0]
    } else {
        ls[0] + seq![DOT] + join_labels(ls.drop_first())
    }
}

/// The fully decoded name at offset `p` of `b`: its dotted byte form and the
/// offset at which the caller's cursor continues.
pub open spec fn parse_name(b: Seq<u8>, p: int) -> Option<(Seq<u8>, int)> {
    match (name_labels_at(b, p, MAX_POINTER_JUMPS as nat), name_end_at(b, p)) {
        (Some(ls), Some(e)) => Some((join_labels(ls), e)),
        _ => None,
    }
}

/// The index of the first dot in `s`, or `s.len()` when there is none.
pub open spec fn first_dot(s: Seq<u8>) -> int
    decreases s.len(),
{
    if s.len() == 0 {
        0
    } else if s[0] == DOT {
        0
    } else {
        1 + first_dot(s.drop_first())
    }
}

/// The labels of the dotted byte string `s`: what splitting on `.` yields,
/// one (possibly empty) piece more than there are dots.
pub open spec fn split_labels(s: Seq<u8>) -> Seq<Seq<u8>>
    decreases s.len(),
{
    let i = first_dot(s);
    if 0 <= i < s.len() {
        seq![s.subrange(0, i)] + split_labels(s.subrange(i + 1, s.len() as int))
    } else {
        seq![s]
    }
}

/// True when every label is short enough for the six-bit length prefix.
pub open spec fn labels_fit(ls: Seq<Seq<u8>>) -> bool {
    forall|i: int| 0 <= i < ls.len() ==> #[trigger] ls[i].len() <= 63
}

/// The wire bytes of the labels, each prefixed by its length, without the
/// terminating zero.
pub open spec fn wire_of_labels(ls: Seq<Seq<u8>>) -> Seq<u8>
    decreases ls.len(),
{
    if ls.len() == 0 {
        Seq::empty()
    } else {
        seq![ls[0].len() as u8] + ls[0] + wire_of_labels(ls.drop_first())
    }
}

/// The full wire encoding of the dotted byte string `s`: its labels, each
/// length-prefixed, then the terminating zero byte.
pub open spec fn name_wire(s: Seq<u8>) -> Seq<u8> {
    wire_of_labels(split_labels(s)) + seq![0u8]
}

proof fn lemma_first_dot_bounds(s: Seq<u8>)
    ensures
        0 <= first_dot(s) <= s.len(),
        first_dot(s) < s.len() ==> s[first_dot(s)] == DOT,
        forall|j: int| 0 <= j < first_dot(s) ==> s[j] != DOT,
    decreases s.len(),
{
    if s.len() == 0 {
    } else if s[0] == DOT {
    } else {
        lemma_first_dot_bounds(s.drop_first());
        assert forall|j: int| 0 <= j < first_dot(s) implies s[j] != DOT by {
            if j > 0 {
                assert(s.drop_first()[j - 1] == s[j]);
            }
        }
    }
}

proof fn lemma_split_nonempty(s: Seq<u8>)
    ensures
        split_labels(s).len() >= 1,
{
    lemma_first_dot_bounds(s);
}

/// A leading dot splits off one empty label.
proof fn lemma_split_dot_head(s: Seq<u8>)
    requires
        s.len() > 0,
        s[0] == DOT,
    ensures
        split_labels(s) == seq![Seq::<u8>::empty()] + split_labels(s.drop_first()),
{
    assert(first_dot(s) == 0);
    assert(s.subrange(0, 0) =~= Seq::<u8>::empty());
    assert(s.subrange(1, s.len() as int) =~= s.drop_first());
}

/// A leading non-dot byte lands at the front of the first label.
proof fn lemma_split_nondot_head(s: Seq<u8>)
    requires
        s.len() > 0,
        s[0] != DOT,
    ensures
        split_labels(s.drop_first()).len() >= 1,
        split_labels(s) == seq![seq![s[0]] + split_labels(s.drop_first())[0]] + split_labels(
            s.drop_first(),
        ).drop_first(),
{
    let t = s.drop_first();
    lemma_split_nonempty(t);
    lemma_first_dot_bounds(s);
    lemma_first_dot_bounds(t);
    let i = first_dot(s);
    assert(i == 1 + first_dot(t));
    if i == s.len() {
        assert(first_dot(t) == t.len());
        assert(split_labels(s) == seq![s]);
        assert(split_labels(t) == seq![t]);
        assert(seq![s[0]] + t =~= s);
        assert(split_labels(t).drop_first() =~= Seq::<Seq<u8>>::empty());
        assert(seq![seq![s[0]] + split_labels(t)[0]] + split_labels(t).drop_first() =~= seq![s]);
    } else {
        assert(split_labels(s) == seq![s.subrange(0, i)] + split_labels(
            s.subrange(i + 1, s.len() as int),
        ));
        assert(split_labels(t) == seq![t.subrange(0, i - 1)] + split_labels(
            t.subrange(i, t.len() as int),
        ));
        assert(s.subrange(i + 1, s.len() as int) =~= t.subrange(i, t.len() as int));
        assert(s.subrange(0, i) =~= seq![s[0]] + t.subrange(0, i - 1));
        assert(split_labels(t).drop_first() =~= split_labels(t.subrange(i, t.len() as int)));
        assert(split_labels(t)[0] == t.subrange(0, i - 1));
        assert(seq![seq![s[0]] + split_labels(t)[0]] + split_labels(t).drop_first() =~= seq![
            s.subrange(0, i),
        ] + split_labels(s.subrange(i + 1, s.len() as int)));
    }
}

/// Splitting and then joining with dots returns the original byte string.
pub proof fn lemma_join_split(s: Seq<u8>)
    ensures
        join_labels(split_labels(s)) == s,
    decreases s.len(),
{
    lemma_first_dot_bounds(s);
    let i = first_dot(s);
    if i == s.len() {
        assert(split_labels(s) == seq![s]);
    } else {
        let rest = s.subrange(i + 1, s.len() as int);
        lemma_join_split(rest);
        lemma_split_nonempty(rest);
        let ls = split_labels(s);
        assert(ls == seq![s.subrange(0, i)] + split_labels(rest));
        assert(ls.len() >= 2);
        assert(ls[0] == s.subrange(0, i));
        assert(ls.drop_first() =~= split_labels(rest));
        assert(join_labels(ls) == s.subrange(0, i) + seq![DOT] + rest);
        assert(s.subrange(0, i) + seq![DOT] + rest =~= s);
    }
}

/// Appending one more label extends the wire form by its prefixed bytes.
proof fn lemma_wire_snoc(ls: Seq<Seq<u8>>, l: Seq<u8>)
    ensures
        wire_of_labels(ls.push(l)) == wire_of_labels(ls) + seq![l.len() as u8] + l,
    decreases ls.len(),
{
    if ls.len() == 0 {
        assert(ls.push(l) =~= seq![l]);
        assert(ls.push(l)[0] == l);
        assert(ls.push(l).drop_first() =~= ls);
        assert(wire_of_labels(ls.push(l)) =~= wire_of_labels(ls) + seq![l.len() as u8] + l);
    } else {
        lemma_wire_snoc(ls.drop_first(), l);
        assert(ls.push(l)[0] == ls[0]);
        assert(ls.push(l).drop_first() =~= ls.drop_first().push(l));
        assert(wire_of_labels(ls.push(l)) =~= wire_of_labels(ls) + seq![l.len() as u8] + l);
    }
}

/// Appending one more label extends the dotted form by a dot and the label,
/// or is the label itself when it is the first.
proof fn lemma_join_snoc(ls: Seq<Seq<u8>>, l: Seq<u8>)
    ensures
        ls.len() == 0 ==> join_labels(ls.push(l)) == l,
        ls.len() > 0 ==> join_labels(ls.push(l)) == join_labels(ls) + seq![DOT] + l,
    decreases ls.len(),
{
    if ls.len() == 0 {
        assert(ls.push(l) =~= seq![l]);
        assert(join_labels(seq![l]) == l);
    } else if ls.len() == 1 {
        assert(ls.push(l).len() == 2);
        assert(ls.push(l)[0] == ls[0]);
        assert(ls.push(l).drop_first() =~= seq![l]);
        assert(join_labels(seq![l]) == l);
        assert(join_labels(ls.push(l)) == ls[0] + seq![DOT] + l);
        assert(join_labels(ls) == ls[0]);
    } else {
        lemma_join_snoc(ls.drop_first(), l);
        assert(ls.push(l)[0] == ls[0]);
        assert(ls.push(l).drop_first() =~= ls.drop_first().push(l));
        assert(join_labels(ls.push(l)) == ls[0] + seq![DOT] + join_labels(
            ls.drop_first().push(l),
        ));
        assert(join_labels(ls.push(l)) =~= join_labels(ls) + seq![DOT] + l);
    }
}

/// Splits a byte string on dots.
fn split_bytes(s: &[u8]) -> (parts: Vec<Vec<u8>>)
    ensures
        parts.deep_view() == split_labels(s@),
{
    let mut parts: Vec<Vec<u8>> = Vec::new();
    let mut cur: Vec<u8> = Vec::new();
    let mut i: usize = 0;
    proof {
        lemma_split_nonempty(s@);
        assert(s@.subrange(0, s@.len() as int) =~= s@);
        assert(parts.deep_view() =~= Seq::<Seq<u8>>::empty());
        assert(cur@ + split_labels(s@)[0] =~= split_labels(s@)[0]);
        assert(split_labels(s@) =~= parts.deep_view() + seq![cur@ + split_labels(s@)[0]]
            + split_labels(s@).drop_first());
    }
    while i < s.len()
        invariant
            i <= s@.len(),
            split_labels(s@) == parts.deep_view() + seq![
                cur@ + split_labels(s@.subrange(i as int, s@.len() as int))[0],
            ] + split_labels(s@.subrange(i as int, s@.len() as int)).drop_first(),
            split_labels(s@.subrange(i as int, s@.len() as int)).len() >= 1,
        decreases s@.len() - i,
    {
        let ghost pre = s@.subrange(i as int, s@.len() as int);
        let ghost post = s@.subrange(i + 1, s@.len() as int);
        let ghost parts0 = parts.deep_view();
        let ghost cur0 = cur@;
        proof {
            assert(pre.len() > 0);
            assert(pre[0] == s@[i as int]);
            assert(pre.drop_first() =~= post);
            lemma_split_nonempty(post);
        }
        if s[i] == DOT {
            parts.push(cur);
            cur = Vec::new();
            proof {
                lemma_split_dot_head(pre);
                assert(parts.deep_view() =~~= parts0.push(cur0));
                assert(split_labels(pre)[0] =~= Seq::<u8>::empty());
                assert(split_labels(pre).drop_first() =~= split_labels(post));
                assert(cur0 + split_labels(pre)[0] =~= cur0);
                assert(split_labels(s@) == parts0 + seq![cur0] + split_labels(post));
                assert(parts0 + seq![cur0] + split_labels(post) =~= parts0.push(cur0) + seq![
                    cur@ + split_labels(post)[0],
                ] + split_labels(post).drop_first());
            }
        } else {
            cur.push(s[i]);
            proof {
                lemma_split_nondot_head(pre);
                assert(split_labels(pre)[0] == seq![pre[0]] + split_labels(post)[0]);
                assert(split_labels(pre).drop_first() =~= split_labels(post).drop_first());
                assert(cur@ =~= cur0.push(pre[0]));
                assert(cur0 + split_labels(pre)[0] =~= cur@ + split_labels(post)[0]);
            }
        }
        i = i + 1;
    }
    proof {
        let tail = s@.subrange(i as int, s@.len() as int);
        assert(tail =~= Seq::<u8>::empty());
        assert(split_labels(tail) == seq![tail]);
        assert(cur@ + tail =~= cur@);
        assert(split_labels(s@) =~= parts.deep_view().push(cur@));
    }
    let ghost parts1 = parts.deep_view();
    let ghost cur1 = cur@;
    parts.push(cur);
    proof {
        assert(parts.deep_view() =~~= parts1.push(cur1));
    }
    parts
}

/// Appends every byte of `src` to `dst`.
fn append_bytes(dst: &mut Vec<u8>, src: &Vec<u8>)
    ensures
        final(dst)@ == old(dst)@ + src@,
{
    let mut j: usize = 0;
    while j < src.len()
        invariant
            j <= src@.len(),
            dst@ == old(dst)@ + src@.subrange(0, j as int),
        decreases src@.len() - j,
    {
        dst.push(src[j]);
        proof {
            assert(old(dst)@ + src@.subrange(0, j as int) + seq![src@[j as int]] =~= old(dst)@
                + src@.subrange(0, j + 1));
        }
        j = j + 1;
    }
    proof {
        assert(src@.subrange(0, src@.len() as int) =~= src@);
    }
}

/// Encodes the dotted name `domain` into length-prefixed labels terminated
/// by a zero byte, appending to `buffer`.  Fails when a label is longer than
/// 63 bytes, leaving the labels before it already appended.
pub fn pack_domain_name(buffer: &mut Vec<u8>, domain: &str) -> (r: Result<(), String>)
    ensures
        ({
            let ls = split_labels(domain.spec_bytes());
            &&& (r is Ok <==> labels_fit(ls))
            &&& (r is Ok ==> final(buffer)@ == old(buffer)@ + name_wire(domain.spec_bytes()))
            &&& (r is Err ==> exists|k: int|
                {
                    &&& 0 <= k < ls.len()
                    &&& ls[k].len() > 63
                    &&& labels_fit(#[trigger] ls.take(k))
                    &&& final(buffer)@ == old(buffer)@ + wire_of_labels(ls.take(k))
                })
        }),
{
    let parts = split_bytes(domain.as_bytes());
    let ghost ls = split_labels(domain.spec_bytes());
    let mut k: usize = 0;
    while k < parts.len()
        invariant
            ls == split_labels(domain.spec_bytes()),
            parts.deep_view() == ls,
            k <= ls.len(),
            labels_fit(ls.take(k as int)),
            buffer@ == old(buffer)@ + wire_of_labels(ls.take(k as int)),
        decreases parts.len() - k,
    {
        let label = &parts[k];
        if label.len() > 63 {
            proof {
                assert(ls[k as int].len() > 63);
            }
            return Err(String::from_str("label exceeds the maximum length of 63 bytes"));
        }
        buffer.push(label.len() as u8);
        append_bytes(buffer, label);
        proof {
            lemma_wire_snoc(ls.take(k as int), ls[k as int]);
            assert(ls.take(k + 1) =~= ls.take(k as int).push(ls[k as int]));
            assert(buffer@ =~= old(buffer)@ + wire_of_labels(ls.take(k + 1)));
        }
        k = k + 1;
    }
    buffer.push(0);
    proof {
        assert(ls.take(ls.len() as int) =~= ls);
        assert(buffer@ =~= old(buffer)@ + name_wire(domain.spec_bytes()));
    }
    Ok(())
}

/// Labels still to be decoded, prefixed by the labels already accumulated:
/// the shape of the decoder's intermediate state.
pub open spec fn opt_prepend(pre: Seq<Seq<u8>>, o: Option<Seq<Seq<u8>>>) -> Option<
    Seq<Seq<u8>>,
> {
    match o {
        Some(ls) => Some(pre + ls),
        None => None,
    }
}

proof fn lemma_opt_prepend_empty(o: Option<Seq<Seq<u8>>>)
    ensures
        opt_prepend(Seq::empty(), o) == o,
{
    match o {
        Some(ls) => {
            assert(Seq::<Seq<u8>>::empty() + ls =~= ls);
        },
        None => {},
    }
}

proof fn lemma_opt_prepend_push(pre: Seq<Seq<u8>>, l: Seq<u8>, o: Option<Seq<Seq<u8>>>)
    ensures
        opt_prepend(pre, opt_prepend(seq![l], o)) == opt_prepend(pre.push(l), o),
{
    match o {
        Some(ls) => {
            assert(pre + (seq![l] + ls) =~= pre.push(l) + ls);
        },
        None => {},
    }
}

/// A name whose labels decode also pins the caller's next cursor position:
/// the original occurrence of the name ends inside the buffer.
proof fn lemma_labels_give_end(b: Seq<u8>, p: int, jumps: nat)
    requires
        name_labels_at(b, p, jumps) is Some,
    ensures
        name_end_at(b, p) matches Some(e) && p < e <= b.len(),
    decreases (if p <= b.len() { b.len() - p } else { 0 }),
{
    if is_pointer_byte(b[p]) {
    } else if b[p] == 0 {
    } else {
        lemma_labels_give_end(b, p + 1 + b[p], jumps);
    }
}

proof fn lemma_wire_parses(b: Seq<u8>, p: int, ls: Seq<Seq<u8>>, jumps: nat)
    requires
        0 <= p,
        forall|i: int| 0 <= i < ls.len() ==> 1 <= (#[trigger] ls[i]).len() <= 63,
        p + wire_of_labels(ls).len() + 1 <= b.len(),
        b.subrange(p, p + wire_of_labels(ls).len() + 1) == wire_of_labels(ls) + seq![0u8],
    ensures
        name_labels_at(b, p, jumps) == Some(ls),
        name_end_at(b, p) == Some(p + wire_of_labels(ls).len() + 1),
    decreases ls.len(),
{
    let w = wire_of_labels(ls);
    let full = w + seq![0u8];
    assert forall|i: int| 0 <= i < w.len() + 1 implies b[p + i] == full[i] by {
        assert(b.subrange(p, p + w.len() + 1)[i] == b[p + i]);
    }
    assert(b[p] == full[0]) by {
        assert(b.subrange(p, p + w.len() + 1)[0] == b[p]);
    }
    if ls.len() == 0 {
        assert(w.len() == 0);
        assert(full[0] == 0);
        assert(b[p] == 0);
    } else {
        let l = ls[0];
        let n = l.len() as int;
        let w1 = wire_of_labels(ls.drop_first());
        let head = seq![l.len() as u8] + l;
        assert(w == head + w1);
        assert(head.len() == 1 + n);
        assert(w.len() == 1 + n + w1.len());
        assert(full[0] == w[0] && w[0] == head[0] && head[0] == l.len() as u8);
        assert(b[p] == l.len() as u8);
        assert(1 <= b[p] < 0xC0);
        let q = p + 1 + n;
        assert(b.subrange(p + 1, p + 1 + n) =~= l) by {
            assert forall|j: int| 0 <= j < n implies b[p + 1 + j] == l[j] by {
                assert(b[p + (1 + j)] == full[1 + j]);
                assert(full[1 + j] == w[1 + j]);
                assert(w[1 + j] == head[1 + j]);
                assert(head[1 + j] == l[j]);
            }
        }
        assert(b.subrange(q, q + w1.len() + 1) =~= w1 + seq![0u8]) by {
            assert forall|j: int| 0 <= j < w1.len() + 1 implies b[q + j] == (w1 + seq![0u8])[j]
                by {
                assert(b[p + (1 + n + j)] == full[1 + n + j]);
                if j < w1.len() {
                    assert(full[1 + n + j] == w[1 + n + j]);
                    assert(w[1 + n + j] == w1[j]);
                    assert((w1 + seq![0u8])[j] == w1[j]);
                } else {
                    assert(full[w.len() as int] == 0);
                    assert((w1 + seq![0u8])[j] == 0);
                }
            }
        }
        assert forall|i: int|
            0 <= i < ls.drop_first().len() implies 1 <= (#[trigger] ls.drop_first()[i]).len()
            <= 63 by {
            assert(ls.drop_first()[i] == ls[i + 1]);
        }
        lemma_wire_parses(b, q, ls.drop_first(), jumps);
        assert(p + 1 + b[p] == q);
        assert(seq![b.subrange(p + 1, p + 1 + b[p])] + ls.drop_first() =~= ls);
    }
}

/// Law (round trip): place the wire encoding of a dotted byte string whose
/// labels are all one to 63 bytes long anywhere in a buffer and decode it
/// there: the very same byte string comes back, and the cursor lands exactly
/// on the byte after the terminating zero.  When the byte string is the
/// UTF-8 form of a text name, the decoded text equals that name, since the
/// encoding is valid UTF-8 and decoding it is exact.
pub proof fn lemma_name_round_trip(name: Seq<char>, b: Seq<u8>, p: int)
    requires
        0 <= p,
        forall|i: int| 0 <= i < split_labels(encode_utf8(name)).len() ==> 1 <= (
        #[trigger] split_labels(encode_utf8(name))[i]).len() <= 63,
        p + name_wire(encode_utf8(name)).len() <= b.len(),
        b.subrange(p, p + name_wire(encode_utf8(name)).len()) == name_wire(encode_utf8(name)),
    ensures
        parse_name(b, p) == Some(
            (encode_utf8(name), p + name_wire(encode_utf8(name)).len()),
        ),
        valid_utf8(encode_utf8(name)),
        decode_utf8(encode_utf8(name)) == name,
{
    let s = encode_utf8(name);
    assert(name_wire(s).len() == wire_of_labels(split_labels(s)).len() + 1);
    lemma_wire_parses(b, p, split_labels(s), MAX_POINTER_JUMPS as nat);
    lemma_join_split(s);
    vstd::utf8::encode_utf8_valid_utf8(name);
    vstd::utf8::encode_utf8_decode_utf8(name);
}

/// Labels that resolve within some jump budget resolve identically within
/// any larger one: more budget never changes a successful decode.
proof fn lemma_labels_fuel_mono(b: Seq<u8>, p: int, j1: nat, j2: nat)
    requires
        j1 <= j2,
        name_labels_at(b, p, j1) is Some,
    ensures
        name_labels_at(b, p, j2) == name_labels_at(b, p, j1),
    decreases j1, (if p <= b.len() { b.len() - p } else { 0 }),
{
    if is_pointer_byte(b[p]) {
        lemma_labels_fuel_mono(b, pointer_target(b, p), (j1 - 1) as nat, (j2 - 1) as nat);
    } else if b[p] == 0 {
    } else {
        lemma_labels_fuel_mono(b, p + 1 + b[p], j1, j2);
    }
}

/// Every label a decode yields came from a nonzero length byte, so none of
/// them is empty.
proof fn lemma_labels_nonempty(b: Seq<u8>, p: int, jumps: nat)
    requires
        name_labels_at(b, p, jumps) is Some,
    ensures
        forall|i: int|
            0 <= i < (name_labels_at(b, p, jumps)->0).len() ==> (#[trigger] (name_labels_at(
                b,
                p,
                jumps,
            )->0)[i]).len() >= 1,
    decreases jumps, (if p <= b.len() { b.len() - p } else { 0 }),
{
    if is_pointer_byte(b[p]) {
        lemma_labels_nonempty(b, pointer_target(b, p), (jumps - 1) as nat);
    } else if b[p] == 0 {
    } else {
        lemma_labels_nonempty(b, p + 1 + b[p], jumps);
        let ls = name_labels_at(b, p, jumps)->0;
        let rest = name_labels_at(b, p + 1 + b[p], jumps)->0;
        assert forall|i: int| 0 <= i < ls.len() implies (#[trigger] ls[i]).len() >= 1 by {
            if i > 0 {
                assert(ls[i] == rest[i - 1]);
            }
        }
    }
}

/// Law (compression): a two-byte pointer decodes to exactly the name found
/// at its 14-bit target offset, and the caller's cursor advances exactly two
/// bytes, from the pointer to just past it.  The target must resolve within
/// one jump fewer than the full budget, since the pointer itself spends one.
pub proof fn lemma_pointer_compression(b: Seq<u8>, p: int, k: int)
    requires
        0 <= p,
        p + 2 <= b.len(),
        0 <= k < 0x4000,
        b[p] == 0xC0 + k / 256,
        b[p + 1] == k % 256,
        name_labels_at(b, k, (MAX_POINTER_JUMPS - 1) as nat) is Some,
    ensures
        parse_name(b, k) matches Some((target, _)) && parse_name(b, p) == Some(
            (target, p + 2),
        ),
{
    assert(is_pointer_byte(b[p]));
    assert(pointer_target(b, p) == k);
    lemma_labels_fuel_mono(b, k, (MAX_POINTER_JUMPS - 1) as nat, MAX_POINTER_JUMPS as nat);
    lemma_labels_give_end(b, k, (MAX_POINTER_JUMPS - 1) as nat);
    assert(name_labels_at(b, p, MAX_POINTER_JUMPS as nat) == name_labels_at(
        b,
        k,
        (MAX_POINTER_JUMPS - 1) as nat,
    ));
    assert(name_end_at(b, p) == Some(p + 2));
}

/// Law (chained compression): a name made of one stored label followed by a
/// pointer to another name expands transitively to the label, a dot, and
/// whatever that other name expands to; the caller's cursor stops at the end
/// of the pointer, two bytes past the stored label.
pub proof fn lemma_chained_compression(b: Seq<u8>, p: int, k: int)
    requires
        0 <= p < b.len(),
        1 <= b[p] < 0xC0,
        p + 1 + b[p] + 2 <= b.len(),
        b[p + 1 + b[p]] == 0xC0 + k / 256,
        b[p + 1 + b[p] + 1] == k % 256,
        0 <= k < 0x4000,
        name_labels_at(b, k, (MAX_POINTER_JUMPS - 1) as nat) is Some,
    ensures
        parse_name(b, k) matches Some((target, _)) && parse_name(b, p) == Some(
            (
                (if target.len() == 0 {
                    b.subrange(p + 1, p + 1 + b[p])
                } else {
                    b.subrange(p + 1, p + 1 + b[p]) + seq![DOT] + target
                }),
                p + 1 + b[p] + 2,
            ),
        ),
{
    let q = p + 1 + b[p];
    let lab = b.subrange(p + 1, p + 1 + b[p]);
    let jmax = MAX_POINTER_JUMPS as nat;
    assert(is_pointer_byte(b[q]));
    assert(pointer_target(b, q) == k);
    lemma_labels_fuel_mono(b, k, (MAX_POINTER_JUMPS - 1) as nat, jmax);
    lemma_labels_give_end(b, k, (MAX_POINTER_JUMPS - 1) as nat);
    lemma_labels_nonempty(b, k, jmax);
    let ls = name_labels_at(b, k, jmax)->0;
    assert(name_labels_at(b, q, jmax) == Some(ls));
    assert(name_labels_at(b, p, jmax) == Some(seq![lab] + ls));
    assert(name_end_at(b, q) == Some(q + 2));
    assert(name_end_at(b, p) == Some(q + 2));
    if ls.len() == 0 {
        assert(join_labels(ls) =~= Seq::<u8>::empty());
        assert(seq![lab] + ls =~= seq![lab]);
        assert(join_labels(seq![lab]) == lab);
    } else {
        assert((seq![lab] + ls).len() >= 2);
        assert((seq![lab] + ls)[0] == lab);
        assert((seq![lab] + ls).drop_first() =~= ls);
        assert(join_labels(seq![lab] + ls) == lab + seq![DOT] + join_labels(ls));
        assert(join_labels(ls).len() >= ls[0].len()) by {
            if ls.len() == 1 {
            } else {
                assert(join_labels(ls) == ls[0] + seq![DOT] + join_labels(ls.drop_first()));
            }
        }
        assert(join_labels(ls).len() > 0);
    }
}

/// Decodes the name stored at offset `pos` of `buf`, following compression
/// pointers, and returns its dotted form together with the offset just past
/// the name's original occurrence: past the terminating zero when the name
/// was read in place, or past the first pointer when the decoder jumped.
pub fn unpack_domain_name(buf: &[u8], pos: usize) -> (r: Result<(String, usize), DnsError>)
    ensures
        r is Ok <==> parse_name(buf@, pos as int) is Some,
        (r matches Ok((name, end)) ==> parse_name(buf@, pos as int) matches Some((nb, e))
            && decodes_lossy(name@, nb) && e == end && pos < end <= buf@.len()),
        (r matches Err(e) ==> e is InvalidResponse),
{
    let mut acc: Vec<u8> = Vec::new();
    let mut any: bool = false;
    let mut jumped: bool = false;
    let mut jump_pos: usize = 0;
    let mut jumps: usize = 0;
    let mut cur: usize = pos;
    let ghost mut done: Seq<Seq<u8>> = Seq::empty();
    proof {
        lemma_opt_prepend_empty(name_labels_at(buf@, pos as int, MAX_POINTER_JUMPS as nat));
    }
    loop
        invariant
            jumps <= MAX_POINTER_JUMPS,
            any <==> done.len() > 0,
            acc@ == join_labels(done),
            name_labels_at(buf@, pos as int, MAX_POINTER_JUMPS as nat) == opt_prepend(
                done,
                name_labels_at(buf@, cur as int, (MAX_POINTER_JUMPS - jumps) as nat),
            ),
            jumped ==> jumps > 0 && name_end_at(buf@, pos as int) == Some(jump_pos as int)
                && pos < jump_pos <= buf@.len(),
            !jumped ==> jumps == 0 && pos <= cur && name_end_at(buf@, pos as int) == name_end_at(
                buf@,
                cur as int,
            ),
        decreases
                MAX_POINTER_JUMPS - jumps,
                (if cur <= buf@.len() {
                    buf@.len() - cur as int
                } else {
                    0
                }),
    {
        if cur >= buf.len() {
            return Err(truncated_error());
        }
        let len_byte = buf[cur];
        if len_byte >= 0xC0 {
            // A compression pointer: two bytes, the low fourteen bits an
            // offset from the start of the buffer.
            if cur + 1 >= buf.len() {
                return Err(truncated_error());
            }
            if !jumped {
                jumped = true;
                jump_pos = cur + 2;
            }
            if jumps == MAX_POINTER_JUMPS {
                return Err(
                    DnsError::InvalidResponse(
                        String::from_str("compression pointer chain is too long"),
                    ),
                );
            }
            let target = ((len_byte - 0xC0) as usize) * 256 + (buf[cur + 1] as usize);
            proof {
                assert(target == pointer_target(buf@, cur as int));
            }
            cur = target;
            jumps = jumps + 1;
        } else if len_byte == 0 {
            // The terminating zero byte: the root label ends the name.
            let end = if jumped {
                jump_pos
            } else {
                cur + 1
            };
            let name = lossy_string(&acc);
            proof {
                assert(name_labels_at(buf@, cur as int, (MAX_POINTER_JUMPS - jumps) as nat)
                    == Some(Seq::<Seq<u8>>::empty()));
                assert(done + Seq::<Seq<u8>>::empty() =~= done);
            }
            return Ok((name, end));
        } else {
            let lab_len = len_byte as usize;
            if lab_len > buf.len() - (cur + 1) {
                return Err(truncated_error());
            }
            let ghost lab = buf@.subrange(cur + 1, cur + 1 + lab_len);
            let ghost acc0 = acc@;
            if any {
                acc.push(DOT);
            }
            append_range(&mut acc, buf, cur + 1, cur + 1 + lab_len);
            proof {
                lemma_join_snoc(done, lab);
                if done.len() > 0 {
                    assert(acc@ =~= join_labels(done) + seq![DOT] + lab);
                } else {
                    assert(acc@ =~= lab);
                }
                lemma_opt_prepend_push(
                    done,
                    lab,
                    name_labels_at(buf@, cur + 1 + lab_len, (MAX_POINTER_JUMPS - jumps) as nat),
                );
                done = done.push(lab);
            }
            any = true;
            cur = cur + 1 + lab_len;
        }
    }
}

} // verus!
