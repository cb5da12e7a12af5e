//! Unix paths as bytes: components, prefixes, joining and extensions.
//!
//! A path is compared by its components. Repeated and trailing slashes do not
//! count, nor does a `.`, except at the start of a relative path.

use crate::seqs::{first_position, last_position};
use crate::seqs::{lemma_first_position, lemma_last_position, lemma_last_position_unique};
use vstd::prelude::*;

verus! {

pub const SLASH: u8 = 0x2f;

pub const DOT: u8 = 0x2e;

/// The names in a relative path: the parts between slashes that are neither empty
/// nor `.`.
pub open spec fn names(p: Seq<u8>) -> Seq<Seq<u8>>
    decreases p.len(),
{
    let k = first_position(p, SLASH);
    if p.len() == 0 || k < 0 {
        Seq::empty()
    } else {
        let rest = if k < p.len() {
            names(p.skip(k + 1))
        } else {
            Seq::empty()
        };
        if k == 0 || p.take(k) == seq![DOT] {
            rest
        } else {
            seq![p.take(k)] + rest
        }
    }
}

/// What a path starts with, if that is a component: the root, or a `.`.
pub open spec fn lead(p: Seq<u8>) -> Seq<Seq<u8>> {
    if p.len() > 0 && p[0] == SLASH {
        seq![seq![SLASH]]
    } else if p.take(first_position(p, SLASH)) == seq![DOT] {
        seq![seq![DOT]]
    } else {
        Seq::empty()
    }
}

/// The components of a path.
pub open spec fn components(p: Seq<u8>) -> Seq<Seq<u8>> {
    lead(p) + names(p)
}

/// Whether `base` is `path` or one of the directories above it.
pub open spec fn within(path: Seq<u8>, base: Seq<u8>) -> bool {
    components(base).is_prefix_of(components(path))
}

/// Whether two paths have the same components.
pub open spec fn same_path(a: Seq<u8>, b: Seq<u8>) -> bool {
    components(a) == components(b)
}

/// The path `rel` as seen from `base`; an absolute path stands for itself.
pub open spec fn joined(base: Seq<u8>, rel: Seq<u8>) -> Seq<u8> {
    if rel.len() > 0 && rel[0] == SLASH {
        rel
    } else if base.len() == 0 || base.last() == SLASH {
        base + rel
    } else {
        base.push(SLASH) + rel
    }
}

/// How many directories names lead down, less those that each `..` leads up.
pub open spec fn depth(names: Seq<Seq<u8>>) -> int
    decreases names.len(),
{
    if names.len() == 0 {
        0
    } else if names.last() == seq![DOT, DOT] {
        depth(names.drop_last()) - 1
    } else {
        depth(names.drop_last()) + 1
    }
}

/// Whether names lead, at some point, above where they start.
pub open spec fn climbs(names: Seq<Seq<u8>>) -> bool {
    exists|n: int| 0 <= n <= names.len() && depth(#[trigger] names.take(n)) < 0
}

/// Whether a path names something under `base`, as far as its components tell: it
/// starts with those of `base`, and each `..` behind them leads up from a directory
/// under `base`.
pub open spec fn stays_under(path: Seq<u8>, base: Seq<u8>) -> bool {
    within(path, base) && !climbs(components(path).skip(components(base).len() as int))
}

/// What follows the last `.` in the name of a file, unless the name starts with
/// that `.`.
pub open spec fn extension_of(p: Seq<u8>) -> Option<Seq<u8>> {
    let cs = components(p);
    if cs.len() == 0 || cs.last() == seq![SLASH] || cs.last() == seq![DOT] || cs.last() == seq![
        DOT,
        DOT,
    ] {
        None
    } else {
        match last_position(cs.last(), DOT) {
            None => None,
            Some(dot) => if dot == 0 {
                None
            } else {
                Some(cs.last().skip(dot + 1))
            },
        }
    }
}

/// The contents of byte strings.
pub open spec fn contents(v: Seq<Vec<u8>>) -> Seq<Seq<u8>> {
    v.map_values(|b: Vec<u8>| b@)
}

/// Whether two byte strings are equal.
pub fn same_bytes(a: &[u8], b: &[u8]) -> (r: bool)
    ensures
        r == (a@ == b@),
{
    if a.len() != b.len() {
        return false;
    }
    let mut i: usize = 0;
    while i < a.len()
        invariant
            a@.len() == b@.len(),
            0 <= i <= a@.len(),
            forall|k: int| 0 <= k < i ==> a@[k] == b@[k],
        decreases a.len() - i,
    {
        if a[i] != b[i] {
            return false;
        }
        i = i + 1;
    }
    assert(a@ =~= b@);
    true
}

/// A copy of `a[from..to]`.
pub fn copy_bytes(a: &[u8], from: usize, to: usize) -> (v: Vec<u8>)
    requires
        from <= to <= a@.len(),
    ensures
        v@ == a@.subrange(from as int, to as int),
{
    let mut v: Vec<u8> = Vec::new();
    let mut i: usize = from;
    while i < to
        invariant
            from <= i <= to <= a@.len(),
            v@ == a@.subrange(from as int, i as int),
        decreases to - i,
    {
        v.push(a[i]);
        i = i + 1;
    }
    v
}

/// A position with `c`, and none before it, is the first one.
pub proof fn lemma_first_position_unique(p: Seq<u8>, c: u8, k: int)
    requires
        0 <= k <= p.len(),
        k < p.len() ==> p[k] == c,
        forall|j: int| 0 <= j < k ==> #[trigger] p[j] != c,
    ensures
        first_position(p, c) == k,
{
    lemma_first_position(p, c);
}

/// The end of the part that starts at `i`: the next slash, or the end of the path.
fn part_end(path: &[u8], i: usize) -> (k: usize)
    requires
        i <= path@.len(),
    ensures
        i <= k <= path@.len(),
        k - i == first_position(path@.skip(i as int), SLASH),
{
    let mut k: usize = i;
    while k < path.len() && path[k] != SLASH
        invariant
            i <= k <= path@.len(),
            forall|j: int| i <= j < k ==> #[trigger] path@[j] != SLASH,
        decreases path.len() - k,
    {
        k = k + 1;
    }
    proof {
        let rest = path@.skip(i as int);
        assert forall|j: int| 0 <= j < k - i implies #[trigger] rest[j] != SLASH by {
            assert(rest[j] == path@[i + j]);
        }
        lemma_first_position_unique(rest, SLASH, k - i);
    }
    k
}

/// The components of a path.
pub fn split_components(path: &[u8]) -> (v: Vec<Vec<u8>>)
    ensures
        contents(v@) == components(path@),
{
    let ghost p = path@;
    let mut out: Vec<Vec<u8>> = Vec::new();
    let first = part_end(path, 0);
    assert(p.skip(0) =~= p);
    if path.len() > 0 && path[0] == SLASH {
        let root = copy_bytes(path, 0, 1);
        assert(root@ =~= seq![SLASH]);
        out.push(root);
    } else if first == 1 && path[0] == DOT {
        let here = copy_bytes(path, 0, 1);
        assert(here@ =~= seq![DOT]);
        assert(p.take(1) =~= seq![DOT]);
        out.push(here);
    } else {
        assert(p.take(first as int) != seq![DOT]) by {
            if p.take(first as int) == seq![DOT] {
                assert(p.take(first as int)[0] == DOT);
                assert(p.take(first as int).len() == 1);
            }
        }
    }
    assert(contents(out@) =~= lead(p));
    let mut i: usize = 0;
    while i < path.len()
        invariant
            p == path@,
            0 <= i <= p.len(),
            contents(out@) + names(p.skip(i as int)) == components(p),
        decreases path.len() - i,
    {
        let k = part_end(path, i);
        let ghost rest = p.skip(i as int);
        let ghost before = out@;
        let ghost after: Seq<Seq<u8>> = if k < p.len() {
            names(p.skip(k + 1))
        } else {
            Seq::empty()
        };
        proof {
            assert(rest.take(k - i) =~= p.subrange(i as int, k as int));
            if k < p.len() {
                assert(rest.skip(k - i + 1) =~= p.skip(k + 1));
            }
        }
        if k == i || (k == i + 1 && path[i] == DOT) {
            assert(k == i + 1 ==> rest.take(k - i) =~= seq![DOT]);
            assert(names(rest) == after);
        } else {
            let name = copy_bytes(path, i, k);
            assert(name@ != seq![DOT]) by {
                if name@ == seq![DOT] {
                    assert(name@[0] == DOT && name@.len() == 1);
                }
            }
            assert(names(rest) == seq![name@] + after);
            out.push(name);
            assert(contents(out@) =~= contents(before).push(name@));
            assert(contents(out@) + after =~= contents(before) + (seq![name@] + after));
        }
        if k < path.len() {
            i = k + 1;
        } else {
            i = k;
            assert(p.skip(i as int) =~= Seq::<u8>::empty());
            assert(names(p.skip(i as int)) =~= Seq::<Seq<u8>>::empty());
        }
    }
    proof {
        assert(p.skip(i as int) =~= Seq::<u8>::empty());
        assert(names(p.skip(i as int)) =~= Seq::<Seq<u8>>::empty());
        assert(contents(out@) + names(p.skip(i as int)) =~= contents(out@));
    }
    out
}

/// Whether `base` is a prefix of `path`, by whole components.
pub fn starts_with(path: &[u8], base: &[u8]) -> (r: bool)
    ensures
        r == within(path@, base@),
{
    let long = split_components(path);
    let short = split_components(base);
    let ghost l = components(path@);
    let ghost s = components(base@);
    assert(l.len() == long@.len() && s.len() == short@.len());
    if short.len() > long.len() {
        return false;
    }
    let mut i: usize = 0;
    while i < short.len()
        invariant
            contents(long@) == l,
            contents(short@) == s,
            short@.len() <= long@.len(),
            0 <= i <= short@.len(),
            forall|k: int| 0 <= k < i ==> #[trigger] s[k] == l[k],
            l == components(path@),
            s == components(base@),
        decreases short.len() - i,
    {
        if !same_bytes(short[i].as_slice(), long[i].as_slice()) {
            proof {
                assert(s[i as int] == short@[i as int]@);
                assert(l[i as int] == long@[i as int]@);
                if s.is_prefix_of(l) {
                    assert(l.subrange(0, s.len() as int)[i as int] == l[i as int]);
                }
            }
            return false;
        }
        assert(s[i as int] == short@[i as int]@);
        assert(l[i as int] == long@[i as int]@);
        i = i + 1;
    }
    assert(s =~= l.subrange(0, s.len() as int));
    true
}

/// Whether two paths have the same components.
pub fn is_same_path(a: &[u8], b: &[u8]) -> (r: bool)
    ensures
        r == same_path(a@, b@),
{
    if starts_with(a, b) && starts_with(b, a) {
        proof {
            let x = components(a@);
            let y = components(b@);
            assert(y == x.subrange(0, y.len() as int));
            assert(x == y.subrange(0, x.len() as int));
            assert(x =~= y);
        }
        true
    } else {
        proof {
            if same_path(a@, b@) {
                let x = components(a@);
                assert(x =~= x.subrange(0, x.len() as int));
            }
        }
        false
    }
}

/// Whether `path` names something under `base`, as far as its components tell.
pub fn is_under(path: &[u8], base: &[u8]) -> (r: bool)
    ensures
        r == stays_under(path@, base@),
{
    if !starts_with(path, base) {
        return false;
    }
    let parts = split_components(path);
    let skipped = split_components(base).len();
    let ghost cs = components(path@);
    let ghost names = cs.skip(components(base@).len() as int);
    assert(cs.len() == parts@.len());
    assert(components(base@).len() == skipped);
    let mut down: usize = 0;
    let mut i: usize = skipped;
    assert(names.take(0) =~= Seq::<Seq<u8>>::empty());
    while i < parts.len()
        invariant
            contents(parts@) == cs,
            cs == components(path@),
            cs.len() == parts@.len(),
            components(base@).len() == skipped,
            names == cs.skip(skipped as int),
            skipped <= i <= parts@.len(),
            down == depth(names.take(i - skipped)),
            down <= i - skipped,
            forall|n: int| 0 <= n <= i - skipped ==> depth(#[trigger] names.take(n)) >= 0,
        decreases parts.len() - i,
    {
        let name = &parts[i];
        let ghost n = i - skipped;
        proof {
            assert(contents(parts@)[i as int] == name@);
            assert(names.take(n + 1).drop_last() =~= names.take(n));
            assert(names.take(n + 1).last() == name@);
        }
        if name.len() == 2 && name[0] == DOT && name[1] == DOT {
            assert(name@ =~= seq![DOT, DOT]);
            if down == 0 {
                assert(depth(names.take(n + 1)) < 0);
                return false;
            }
            down = down - 1;
        } else {
            assert(name@ != seq![DOT, DOT]) by {
                if name@ == seq![DOT, DOT] {
                    assert(name@.len() == 2 && name@[0] == DOT && name@[1] == DOT);
                }
            }
            down = down + 1;
        }
        i = i + 1;
    }
    true
}

/// The path `rel` as seen from `base`; an absolute path stands for itself.
pub fn join(base: &[u8], rel: &[u8]) -> (v: Vec<u8>)
    ensures
        v@ == joined(base@, rel@),
{
    if rel.len() > 0 && rel[0] == SLASH {
        let v = copy_bytes(rel, 0, rel.len());
        assert(v@ =~= rel@);
        return v;
    }
    let mut v = copy_bytes(base, 0, base.len());
    assert(v@ =~= base@);
    if base.len() > 0 && base[base.len() - 1] != SLASH {
        v.push(SLASH);
    }
    let mut tail = copy_bytes(rel, 0, rel.len());
    assert(tail@ =~= rel@);
    v.append(&mut tail);
    v
}

/// The extension of the file name in a path.
pub fn extension(path: &[u8]) -> (r: Option<Vec<u8>>)
    ensures
        match r {
            Some(e) => extension_of(path@) == Some(e@),
            None => extension_of(path@) is None,
        },
{
    let parts = split_components(path);
    let ghost cs = components(path@);
    assert(cs.len() == parts@.len());
    if parts.len() == 0 {
        return None;
    }
    let name = &parts[parts.len() - 1];
    assert(cs.last() == name@);
    if name.len() == 1 && (name[0] == SLASH || name[0] == DOT) {
        assert(name@ =~= seq![SLASH] || name@ =~= seq![DOT]);
        return None;
    }
    if name.len() == 2 && name[0] == DOT && name[1] == DOT {
        assert(name@ =~= seq![DOT, DOT]);
        return None;
    }
    proof {
        assert(name@ != seq![SLASH] && name@ != seq![DOT]) by {
            if name@ == seq![SLASH] || name@ == seq![DOT] {
                assert(name@.len() == 1 && (name@[0] == SLASH || name@[0] == DOT));
            }
        }
        assert(name@ != seq![DOT, DOT]) by {
            if name@ == seq![DOT, DOT] {
                assert(name@.len() == 2 && name@[0] == DOT && name@[1] == DOT);
            }
        }
    }
    let mut i: usize = name.len();
    while i > 0
        invariant
            0 <= i <= name@.len(),
            forall|k: int| i <= k < name@.len() ==> #[trigger] name@[k] != DOT,
            extension_of(path@) == (match last_position(name@, DOT) {
                None => None,
                Some(dot) => if dot == 0 {
                    None
                } else {
                    Some(name@.skip(dot + 1))
                },
            }),
        decreases i,
    {
        i = i - 1;
        if name[i] == DOT {
            proof {
                lemma_last_position_unique(name@, DOT, i as int);
            }
            if i == 0 {
                return None;
            }
            let e = copy_bytes(name.as_slice(), i + 1, name.len());
            assert(e@ =~= name@.skip(i + 1));
            return Some(e);
        }
    }
    proof {
        lemma_last_position(name@, DOT);
    }
    None
}

/// The first slash of a path that goes on behind a slash.
proof fn lemma_first_slash(a: Seq<u8>, b: Seq<u8>)
    requires
        first_position(a, SLASH) < a.len() || (b.len() > 0 && b[0] == SLASH),
    ensures
        first_position(a + b, SLASH) == first_position(a, SLASH),
        (a + b).take(first_position(a, SLASH)) == a.take(first_position(a, SLASH)),
    decreases a.len(),
{
    lemma_first_position(a, SLASH);
    if a.len() > 0 && a[0] != SLASH {
        lemma_first_slash(a.drop_first(), b);
        assert((a + b).drop_first() =~= a.drop_first() + b);
    }
    assert((a + b).take(first_position(a, SLASH)) =~= a.take(first_position(a, SLASH)));
}

/// The names before and behind a slash.
pub proof fn lemma_names_concat(a: Seq<u8>, b: Seq<u8>)
    ensures
        names(a.push(SLASH) + b) == names(a) + names(b),
    decreases a.len(),
{
    let all = a.push(SLASH) + b;
    let k = first_position(a, SLASH);
    lemma_first_position(a, SLASH);
    assert(all =~= a + (seq![SLASH] + b));
    lemma_first_slash(a, seq![SLASH] + b);
    if k < a.len() {
        lemma_names_concat(a.skip(k + 1), b);
        assert(all.skip(k + 1) =~= a.skip(k + 1).push(SLASH) + b);
    } else {
        assert(all.skip(k + 1) =~= b);
        assert(a.take(k) =~= a);
    }
    assert(names(all) =~= names(a) + names(b));
}

/// A relative path as seen from a directory lies in that directory, as far as its
/// components tell.
pub proof fn law_join_stays_within(base: Seq<u8>, rel: Seq<u8>)
    requires
        base.len() > 0,
        rel.len() == 0 || rel[0] != SLASH,
    ensures
        within(joined(base, rel), base),
        components(joined(base, rel)) == components(base) + names(rel),
{
    let path = joined(base, rel);
    if base.last() == SLASH {
        let init = base.drop_last();
        assert(base =~= init.push(SLASH));
        assert(base =~= init.push(SLASH) + Seq::<u8>::empty());
        lemma_names_concat(init, rel);
        lemma_names_concat(init, Seq::empty());
        assert(init + (seq![SLASH] + rel) =~= path);
        assert(init + seq![SLASH] =~= base);
        lemma_first_slash(init, seq![SLASH] + rel);
        lemma_first_slash(init, seq![SLASH]);
        assert(names(path) =~= names(base) + names(rel));
    } else {
        lemma_names_concat(base, rel);
        assert(base + (seq![SLASH] + rel) =~= path);
        lemma_first_slash(base, seq![SLASH] + rel);
    }
    assert(path[0] == base[0]);
    assert(lead(path) == lead(base));
    assert(components(path) =~= components(base) + names(rel));
}

/// Names without a `..` lead down.
proof fn lemma_plain_depth(names: Seq<Seq<u8>>)
    requires
        forall|i: int| 0 <= i < names.len() ==> #[trigger] names[i] != seq![DOT, DOT],
    ensures
        depth(names) == names.len(),
    decreases names.len(),
{
    if names.len() > 0 {
        lemma_plain_depth(names.drop_last());
    }
}

/// A relative path without a `..` names something under the directory that it is seen
/// from, and one that starts with a `..` does not.
pub proof fn law_what_stays_under(base: Seq<u8>, rel: Seq<u8>)
    requires
        base.len() > 0,
        rel.len() == 0 || rel[0] != SLASH,
    ensures
        (forall|i: int| 0 <= i < names(rel).len() ==> #[trigger] names(rel)[i] != seq![DOT, DOT])
            ==> stays_under(joined(base, rel), base),
        names(rel).len() > 0 && names(rel)[0] == seq![DOT, DOT] ==> !stays_under(
            joined(base, rel),
            base,
        ),
{
    law_join_stays_within(base, rel);
    let below = names(rel);
    assert(components(joined(base, rel)).skip(components(base).len() as int) =~= below);
    if forall|i: int| 0 <= i < below.len() ==> #[trigger] below[i] != seq![DOT, DOT] {
        assert forall|n: int| 0 <= n <= below.len() implies depth(#[trigger] below.take(n)) >= 0 by {
            lemma_plain_depth(below.take(n));
        }
    }
    if below.len() > 0 && below[0] == seq![DOT, DOT] {
        reveal_with_fuel(depth, 2);
        assert(below.take(1).drop_last() =~= Seq::<Seq<u8>>::empty());
        assert(depth(below.take(1)) == -1);
    }
}

} // verus!
