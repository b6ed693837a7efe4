//! How a mirrored bucket is named and stamped.
//!
//! The mirror of bucket `b` from device `h` is called `b-synced-from-h`. Every
//! `-synced` that the source identifier already holds is taken out first, so
//! that mirroring a mirror does not pile suffix upon suffix.

use vstd::prelude::*;
use vstd::string::{StrSliceExecFns, StringExecFns};
use crate::json::{set_string, JsonView};
use crate::models::{Bucket, BucketView};

verus! {

/// The characters `-synced`, which mark an identifier as that of a mirror.
pub open spec fn marker() -> Seq<char> {
    seq!['-', 's', 'y', 'n', 'c', 'e', 'd']
}

/// The characters `-from-`, which stand between the marker and the device.
pub open spec fn from_infix() -> Seq<char> {
    seq!['-', 'f', 'r', 'o', 'm', '-']
}

/// The metadata key under which a mirror names the device it comes from.
pub open spec fn origin_key() -> Seq<char> {
    seq!['s', 'y', 'n', 'c', '.', 'o', 'r', 'i', 'g', 'i', 'n']
}

/// The metadata key under which a mirror names the bucket it mirrors.
pub open spec fn source_key() -> Seq<char> {
    seq!['s', 'y', 'n', 'c', '.', 'i', 'd']
}

/// Whether `pat` stands in `s` at position `i`.
pub open spec fn occurs_at(s: Seq<char>, pat: Seq<char>, i: int) -> bool {
    &&& 0 <= i
    &&& i + pat.len() <= s.len()
    &&& s.subrange(i, i + pat.len()) =~= pat
}

/// Whether `pat` stands anywhere in `s`.
pub open spec fn occurs(s: Seq<char>, pat: Seq<char>) -> bool {
    exists|i: int| occurs_at(s, pat, i)
}

/// `s` with the occurrences of `pat` taken out, found from left to right,
/// each search starting behind the occurrence found before.
pub open spec fn without(s: Seq<char>, pat: Seq<char>) -> Seq<char>
    decreases s.len(),
{
    if s.len() == 0 || pat.len() == 0 {
        s
    } else if occurs_at(s, pat, 0) {
        without(s.skip(pat.len() as int), pat)
    } else {
        seq![s[0]] + without(s.skip(1), pat)
    }
}

/// The identifier of the mirror of bucket `id` from device `hostname`.
pub open spec fn mirror_id(id: Seq<char>, hostname: Seq<char>) -> Seq<char> {
    without(id, marker()) + marker() + from_infix() + hostname
}

/// The mirror of a bucket: the bucket under its mirror identifier, with its
/// provenance written into the metadata.
pub open spec fn mirror_of(source: BucketView) -> BucketView {
    BucketView {
        id: mirror_id(source.id, source.hostname),
        bucket_type: source.bucket_type,
        hostname: source.hostname,
        client: source.client,
        metadata: source.metadata.insert(origin_key(), JsonView::Text(source.hostname)).insert(
            source_key(),
            JsonView::Text(source.id),
        ),
    }
}

/// Whether the marker stands in `s` at position `i`.
fn marker_at(s: &str, i: usize) -> (found: bool)
    requires
        i + 7 <= s@.len() <= usize::MAX,
    ensures
        found == occurs_at(s@, marker(), i as int),
{
    let found = s.get_char(i) == '-' && s.get_char(i + 1) == 's' && s.get_char(i + 2) == 'y'
        && s.get_char(i + 3) == 'n' && s.get_char(i + 4) == 'c' && s.get_char(i + 5) == 'e'
        && s.get_char(i + 6) == 'd';
    proof {
        let window = s@.subrange(i as int, i + 7);
        if found {
            assert(window =~= marker());
        } else {
            assert(window[0] == s@[i as int]);
            assert(window[1] == s@[i + 1]);
            assert(window[2] == s@[i + 2]);
            assert(window[3] == s@[i + 3]);
            assert(window[4] == s@[i + 4]);
            assert(window[5] == s@[i + 5]);
            assert(window[6] == s@[i + 6]);
        }
    }
    found
}

/// The identifier without any marker it holds.
pub fn strip_marker(id: &str) -> (stripped: String)
    ensures
        stripped@ == without(id@, marker()),
{
    let n = id.unicode_len();
    let mut stripped = String::new();
    let mut i: usize = 0;
    proof {
        assert(id@.skip(0) =~= id@);
        assert(stripped@ + without(id@, marker()) =~= without(id@, marker()));
    }
    while i < n
        invariant
            i <= n,
            n == id@.len(),
            without(id@, marker()) == stripped@ + without(id@.skip(i as int), marker()),
        decreases n - i,
    {
        let ghost rest = id@.skip(i as int);
        if n - i >= 7 && marker_at(id, i) {
            proof {
                assert(rest.subrange(0, 7) =~= id@.subrange(i as int, i + 7));
                assert(rest.skip(7) =~= id@.skip(i + 7));
            }
            i = i + 7;
        } else {
            proof {
                if n - i >= 7 {
                    assert(rest.subrange(0, 7) =~= id@.subrange(i as int, i + 7));
                }
                assert(rest.skip(1) =~= id@.skip(i + 1));
                assert(seq![rest[0]] =~= id@.subrange(i as int, i + 1));
                assert(stripped@ + (seq![rest[0]] + without(rest.skip(1), marker())) =~= (stripped@
                    + seq![rest[0]]) + without(rest.skip(1), marker()));
            }
            stripped.append(id.substring_char(i, i + 1));
            i = i + 1;
        }
    }
    proof {
        assert(id@.skip(n as int) =~= Seq::<char>::empty());
        assert(stripped@ + Seq::<char>::empty() =~= stripped@);
    }
    stripped
}

/// The identifier under which the destination holds the mirror of `source`.
pub fn destination_id(source: &Bucket) -> (id: String)
    ensures
        id@ == mirror_id(source.id@, source.hostname@),
{
    let mut id = strip_marker(source.id.as_str());
    proof {
        reveal_strlit("-synced-from-");
        assert("-synced-from-"@ =~= marker() + from_infix());
        assert((id@ + (marker() + from_infix())) + source.hostname@ =~= id@ + marker() + from_infix()
            + source.hostname@);
    }
    id.append("-synced-from-");
    id.append(source.hostname.as_str());
    id
}

/// The bucket that the destination is asked to create for `source`: a copy
/// under the mirror identifier, stamped with where it comes from.
pub fn mirror_bucket(source: &Bucket) -> (mirror: Bucket)
    ensures
        mirror@ == mirror_of(source@),
{
    let mut mirror = source.duplicate();
    mirror.id = destination_id(source);
    proof {
        reveal_strlit("sync.origin");
        reveal_strlit("sync.id");
        assert("sync.origin"@ =~= origin_key());
        assert("sync.id"@ =~= source_key());
    }
    set_string(&mut mirror.metadata, "sync.origin", source.hostname.as_str());
    set_string(&mut mirror.metadata, "sync.id", source.id.as_str());
    mirror
}

/// The marker begins with a `-` and holds no other.
proof fn lemma_marker_shape()
    ensures
        marker().len() == 7,
        marker()[0] == '-',
        forall|k: int| 1 <= k < 7 ==> marker()[k] != '-',
{
}

/// An occurrence of the marker in `s.skip(k)` is one in `s`, `k` further on.
proof fn lemma_occurs_in_suffix(s: Seq<char>, k: int, i: int)
    requires
        0 <= k <= s.len(),
    ensures
        occurs_at(s.skip(k), marker(), i) == (occurs_at(s, marker(), i + k) && 0 <= i),
{
    if 0 <= i && i + 7 <= s.len() - k {
        assert(s.skip(k).subrange(i, i + 7) =~= s.subrange(i + k, i + k + 7));
    }
}

/// An identifier that holds no marker is left as it is.
pub proof fn lemma_without_unmarked(s: Seq<char>)
    requires
        !occurs(s, marker()),
    ensures
        without(s, marker()) == s,
    decreases s.len(),
{
    if s.len() > 0 {
        assert(!occurs_at(s, marker(), 0));
        assert forall|i: int| !occurs_at(s.skip(1), marker(), i) by {
            lemma_occurs_in_suffix(s, 1, i);
            assert(!occurs_at(s, marker(), i + 1));
        }
        lemma_without_unmarked(s.skip(1));
        assert(seq![s[0]] + s.skip(1) =~= s);
    }
}

/// Where `a` holds no marker and `b` does not continue one (it is empty or
/// begins with `-`), the marker stands in `a + b` only where it stands in `b`.
proof fn lemma_occurs_in_join(a: Seq<char>, b: Seq<char>, i: int)
    requires
        !occurs(a, marker()),
        b.len() == 0 || b[0] == '-',
    ensures
        occurs_at(a + b, marker(), i) == (i >= a.len() && occurs_at(b, marker(), i - a.len())),
{
    lemma_marker_shape();
    let s = a + b;
    if 0 <= i && i + 7 <= s.len() {
        let window = s.subrange(i, i + 7);
        if i + 7 <= a.len() {
            assert(window =~= a.subrange(i, i + 7));
            assert(!occurs_at(a, marker(), i));
        } else if i < a.len() {
            let k = a.len() - i;
            assert(window[k] == b[0]);
            assert(marker()[k] != '-');
        } else {
            assert(window =~= b.subrange(i - a.len(), i - a.len() + 7));
        }
    }
}

/// Stripping runs through a marker-free front untouched, takes out the
/// marker behind it, and goes on with what follows.
proof fn lemma_without_front(a: Seq<char>, b: Seq<char>)
    requires
        !occurs(a, marker()),
    ensures
        without(a + marker() + b, marker()) == a + without(b, marker()),
    decreases a.len(),
{
    lemma_marker_shape();
    let s = a + marker() + b;
    if a.len() == 0 {
        assert(s.subrange(0, 7) =~= marker());
        assert(s.skip(7) =~= b);
        assert(a + without(b, marker()) =~= without(b, marker()));
    } else {
        assert(a + marker() + b =~= a + (marker() + b));
        lemma_occurs_in_join(a, marker() + b, 0);
        assert(!occurs_at(s, marker(), 0));
        assert forall|i: int| !occurs_at(a.skip(1), marker(), i) by {
            lemma_occurs_in_suffix(a, 1, i);
            assert(!occurs_at(a, marker(), i + 1));
        }
        lemma_without_front(a.skip(1), b);
        assert(s.skip(1) =~= a.skip(1) + marker() + b);
        assert(seq![s[0]] + (a.skip(1) + without(b, marker())) =~= a + without(b, marker()));
    }
}

/// Whether a device name can follow `-from-` without forming a marker: it
/// holds no marker and does not begin with `synced`.
pub open spec fn plain_hostname(hostname: Seq<char>) -> bool {
    !occurs(seq!['-'] + hostname, marker())
}

/// Behind a marker-free identifier, `-from-` and a plain device name form no
/// marker.
proof fn lemma_provenance_unmarked(base: Seq<char>, hostname: Seq<char>)
    requires
        !occurs(base, marker()),
        plain_hostname(hostname),
    ensures
        !occurs(from_infix() + hostname, marker()),
        !occurs(base + from_infix() + hostname, marker()),
{
    let front = seq!['-', 'f', 'r', 'o', 'm'];
    let tail = seq!['-'] + hostname;
    assert(from_infix() + hostname =~= front + tail);
    assert forall|i: int| !occurs_at(front, marker(), i) by {}
    assert forall|i: int| !occurs_at(front + tail, marker(), i) by {
        lemma_occurs_in_join(front, tail, i);
        assert(!occurs_at(tail, marker(), i - front.len()));
    }
    assert(base + from_infix() + hostname =~= base + (front + tail));
    assert forall|i: int| !occurs_at(base + (front + tail), marker(), i) by {
        lemma_occurs_in_join(base, front + tail, i);
        assert(!occurs_at(front + tail, marker(), i - base.len()));
    }
}

/// The mirror identifier depends on nothing but the identifier and the
/// device of the source bucket: two resolutions of one source bucket name
/// the same destination.
pub proof fn lemma_mirror_id_determined(first: BucketView, second: BucketView)
    requires
        first.id == second.id,
        first.hostname == second.hostname,
    ensures
        mirror_of(first).id == mirror_of(second).id,
{
}

/// Behind a marker-free front and in front of a plain device name, the
/// marker of a mirror identifier is the only one.
proof fn lemma_marker_stands_once(front: Seq<char>, hostname: Seq<char>)
    requires
        !occurs(front, marker()),
        plain_hostname(hostname),
    ensures
        forall|i: int|
            occurs_at(front + marker() + from_infix() + hostname, marker(), i) <==> i
                == front.len(),
{
    lemma_marker_shape();
    let whole = front + marker() + from_infix() + hostname;
    let tail = from_infix() + hostname;
    let rest = marker() + tail;
    lemma_provenance_unmarked(Seq::<char>::empty(), hostname);
    assert(whole =~= front + rest);
    assert forall|i: int| occurs_at(whole, marker(), i) <==> i == front.len() by {
        lemma_occurs_in_join(front, rest, i);
        let j = i - front.len();
        if j == 0 {
            assert(rest.subrange(0, 7) =~= marker());
        } else if 0 < j < 7 && j + 7 <= rest.len() {
            assert(rest.subrange(j, j + 7)[0] == marker()[j]);
        } else if j >= 7 && j + 7 <= rest.len() {
            assert(rest.subrange(j, j + 7) =~= tail.subrange(j - 7, j));
            assert(!occurs_at(tail, marker(), j - 7));
        }
    }
}

/// The mirror of a mirror carries one suffix, not two. Where `base` holds
/// no marker and both device names are plain, mirroring `base` from
/// `hostname` and the result again from `onward` gives
/// `base-from-hostname-synced-from-onward`, in which the marker stands at
/// one position only.
pub proof fn lemma_mirror_of_mirror(base: Seq<char>, hostname: Seq<char>, onward: Seq<char>)
    requires
        !occurs(base, marker()),
        plain_hostname(hostname),
        plain_hostname(onward),
    ensures
        mirror_id(base, hostname) == base + marker() + from_infix() + hostname,
        without(mirror_id(base, hostname), marker()) == base + from_infix() + hostname,
        mirror_id(mirror_id(base, hostname), onward) == base + from_infix() + hostname + marker()
            + from_infix() + onward,
        forall|i: int|
            occurs_at(mirror_id(mirror_id(base, hostname), onward), marker(), i) <==> i == (base
                + from_infix() + hostname).len(),
{
    let once = mirror_id(base, hostname);
    let kept = base + from_infix() + hostname;
    lemma_without_unmarked(base);
    lemma_provenance_unmarked(base, hostname);
    assert(once =~= base + marker() + (from_infix() + hostname));
    lemma_without_front(base, from_infix() + hostname);
    lemma_without_unmarked(from_infix() + hostname);
    assert(base + (from_infix() + hostname) =~= kept);
    lemma_marker_stands_once(kept, onward);
}

/// Mirrors of buckets from different devices have different identifiers, so
/// that several devices can be mirrored into one destination. This holds of
/// plain device names and of source identifiers that are free of the marker
/// once they are stripped.
pub proof fn lemma_mirror_ids_apart(
    first_id: Seq<char>,
    first_hostname: Seq<char>,
    second_id: Seq<char>,
    second_hostname: Seq<char>,
)
    requires
        !occurs(without(first_id, marker()), marker()),
        !occurs(without(second_id, marker()), marker()),
        plain_hostname(first_hostname),
        plain_hostname(second_hostname),
        mirror_id(first_id, first_hostname) == mirror_id(second_id, second_hostname),
    ensures
        first_hostname == second_hostname,
        without(first_id, marker()) == without(second_id, marker()),
{
    let first = without(first_id, marker());
    let second = without(second_id, marker());
    let whole = mirror_id(first_id, first_hostname);
    lemma_marker_stands_once(first, first_hostname);
    lemma_marker_stands_once(second, second_hostname);
    assert(occurs_at(whole, marker(), first.len() as int));
    assert(occurs_at(whole, marker(), second.len() as int));
    assert(first.len() == second.len());
    assert(first =~= whole.take(first.len() as int));
    assert(second =~= whole.take(first.len() as int));
    assert(first_hostname =~= whole.skip(first.len() as int + 13));
    assert(second_hostname =~= whole.skip(first.len() as int + 13));
}

} // verus!
