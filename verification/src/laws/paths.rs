//! Paths: their components, and what joining and extensions make of them.

use crate::path::{
    climbs, components, contents, depth, extension_of, joined, lemma_first_position_unique,
    lemma_names_concat, names, same_path, stays_under, within, DOT, SLASH,
};
use crate::seqs::{
    first_position, lemma_first_position, lemma_last_position, lemma_last_position_unique,
};
use vstd::prelude::*;

verus! {

/// A relative path is put behind the directory that it is seen from, with one slash
/// between the two; an absolute one is left as it is.
pub proof fn law_joining(base: Seq<u8>, rel: Seq<u8>)
    ensures
        rel.len() > 0 && rel[0] == 47 ==> joined(base, rel) == rel,
        base.len() == 0 ==> joined(base, rel) == rel,
        (rel.len() == 0 || rel[0] != 47) && base.len() > 0 && base.last() == 47 ==> joined(base, rel)
            == base + rel,
        (rel.len() == 0 || rel[0] != 47) && base.len() > 0 && base.last() != 47 ==> joined(base, rel)
            == base + seq![47u8] + rel,
{
    assert(base.push(47u8) + rel =~= base + seq![47u8] + rel);
    if base.len() == 0 {
        assert(base + rel =~= rel);
    }
}

/// A slash separates names.
pub proof fn law_slashes_separate_names(a: Seq<u8>, b: Seq<u8>)
    ensures
        names(a + seq![47u8] + b) == names(a) + names(b),
{
    lemma_names_concat(a, b);
    assert(a.push(SLASH) + b =~= a + seq![47u8] + b);
}

/// What holds no slash is a name, unless it is empty or a single dot.
pub proof fn law_what_a_name_is(p: Seq<u8>)
    requires
        forall|i: int| 0 <= i < p.len() ==> #[trigger] p[i] != 47,
    ensures
        p.len() == 0 || p == seq![46u8] ==> names(p) == Seq::<Seq<u8>>::empty(),
        p.len() > 0 && p != seq![46u8] ==> names(p) == seq![p],
{
    lemma_first_position_unique(p, SLASH, p.len() as int);
    assert(p.take(p.len() as int) =~= p);
    assert(seq![p] + Seq::<Seq<u8>>::empty() =~= seq![p]);
}

/// The components of a path are its names, behind the root if it starts with a slash, or
/// behind a dot if it starts with one as a part of its own.
pub proof fn law_components(p: Seq<u8>)
    ensures
        p.len() > 0 && p[0] == 47 ==> components(p) == seq![seq![47u8]] + names(p),
        p == seq![46u8] || (p.len() > 1 && p[0] == 46 && p[1] == 47) ==> components(p) == seq![
            seq![46u8],
        ] + names(p),
        !(p.len() > 0 && p[0] == 47) && p != seq![46u8] && !(p.len() > 1 && p[0] == 46 && p[1] == 47)
            ==> components(p) == names(p),
{
    lemma_first_position(p, SLASH);
    let k = first_position(p, SLASH);
    assert(Seq::<Seq<u8>>::empty() + names(p) =~= names(p));
    if p.take(k) == seq![46u8] {
        assert(p.take(k).len() == 1);
        assert(p.take(k)[0] == p[0]);
        if p.len() == 1 {
            assert(p =~= seq![46u8]);
        }
    }
    if p == seq![46u8] {
        lemma_first_position_unique(p, SLASH, 1);
        assert(p.take(1) =~= seq![46u8]);
    }
    if p.len() > 1 && p[0] == 46 && p[1] == 47 {
        lemma_first_position_unique(p, SLASH, 1);
        assert(p.take(1) =~= seq![46u8]);
    }
}

/// A path lies within a directory if the components of the directory are the first of the
/// path's, and is the same path as another if all components are the same.
pub proof fn law_what_lies_within(path: Seq<u8>, base: Seq<u8>)
    ensures
        within(path, base) <==> components(base).len() <= components(path).len() && forall|k: int|
            0 <= k < components(base).len() ==> #[trigger] components(base)[k] == components(path)[k],
        same_path(path, base) <==> components(path) == components(base),
{
    let (l, s) = (components(path), components(base));
    if s.is_prefix_of(l) {
        assert forall|k: int| 0 <= k < s.len() implies #[trigger] s[k] == l[k] by {
            assert(l.subrange(0, s.len() as int)[k] == l[k]);
        }
    }
    if s.len() <= l.len() && forall|k: int| 0 <= k < s.len() ==> #[trigger] s[k] == l[k] {
        assert(s =~= l.subrange(0, s.len() as int));
    }
}

/// Each name leads a directory down, and each `..` a directory up.
pub proof fn law_depth_of_names(list: Seq<Seq<u8>>, name: Seq<u8>)
    ensures
        depth(Seq::<Seq<u8>>::empty()) == 0,
        depth(list.push(name)) == (if name == seq![46u8, 46u8] {
            depth(list) - 1
        } else {
            depth(list) + 1
        }),
{
    assert(list.push(name).drop_last() =~= list);
}

/// A path stays under a directory if it lies within it and no `..` behind the directory's
/// components leads above the directory.
pub proof fn law_what_stays_under_a_directory(path: Seq<u8>, base: Seq<u8>)
    ensures
        stays_under(path, base) <==> within(path, base) && forall|n: int|
            0 <= n <= components(path).len() - components(base).len() ==> depth(
                #[trigger] components(path).skip(components(base).len() as int).take(n),
            ) >= 0,
{
    if within(path, base) {
        law_what_lies_within(path, base);
        let below = components(path).skip(components(base).len() as int);
        assert(below.len() == components(path).len() - components(base).len());
        if climbs(below) {
            let n = choose|n: int| 0 <= n <= below.len() && depth(#[trigger] below.take(n)) < 0;
            assert(depth(below.take(n)) < 0);
        }
    }
}

/// The extension is what follows the last dot of the file name, if something comes before
/// that dot. The root, `.` and `..` have none.
pub proof fn law_what_an_extension_is(p: Seq<u8>, stem: Seq<u8>, ext: Seq<u8>)
    requires
        components(p).len() > 0,
        forall|i: int| 0 <= i < ext.len() ==> #[trigger] ext[i] != 46,
    ensures
        components(p).last() == stem + seq![46u8] + ext && stem.len() > 0 && !(stem == seq![46u8]
            && ext.len() == 0) ==> extension_of(p) == Some(ext),
        components(p).last() == seq![46u8] + ext ==> extension_of(p) is None,
        components(p).last() == ext ==> extension_of(p) is None,
        components(p).last() == seq![46u8, 46u8] ==> extension_of(p) is None,
{
    let name = components(p).last();
    if name == stem + seq![46u8] + ext && stem.len() > 0 && !(stem == seq![46u8] && ext.len() == 0) {
        let dot = stem.len() as int;
        assert(name[dot] == DOT);
        assert forall|k: int| dot < k < name.len() implies #[trigger] name[k] != DOT by {
            assert(name[k] == ext[k - dot - 1]);
        }
        lemma_last_position_unique(name, DOT, dot);
        assert(name.skip(dot + 1) =~= ext);
        assert(name != seq![SLASH] && name != seq![DOT]) by {
            assert(name.len() >= 2);
        }
        assert(name != seq![DOT, DOT]) by {
            if name == seq![DOT, DOT] {
                assert(name.len() == 2);
                assert(stem.len() == 1 && ext.len() == 0) by {
                    if ext.len() == 1 {
                        assert(name[1] == ext[0]);
                    }
                }
                assert(stem[0] == name[0]);
                assert(stem =~= seq![46u8]);
            }
        }
    }
    if name == seq![46u8] + ext {
        assert(name[0] == DOT);
        assert forall|k: int| 0 < k < name.len() implies #[trigger] name[k] != DOT by {
            assert(name[k] == ext[k - 1]);
        }
        lemma_last_position_unique(name, DOT, 0);
    }
    if name == ext {
        lemma_last_position(name, DOT);
    }
}

/// A path without components has no extension.
pub proof fn law_no_name_no_extension(p: Seq<u8>)
    requires
        components(p).len() == 0,
    ensures
        extension_of(p) is None,
{
}

/// What a list of byte strings holds is what each of them holds.
pub proof fn law_what_byte_strings_hold(v: Seq<Vec<u8>>, k: int)
    ensures
        contents(v).len() == v.len(),
        0 <= k < v.len() ==> contents(v)[k] == v[k]@,
{
}

} // verus!
