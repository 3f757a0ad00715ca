//! What a resolution reads, and what it answers.
//!
//! A resolution decides from the facts a [`crate::disk::Disk`] records. The
//! laws here say that it reads no more than the folders, paths and files its
//! probes name, so that gathering exactly those facts first loses nothing,
//! and that every place it answers is a file.
use vstd::prelude::*;

use crate::disk::{is_file, lookup, DiskView};
use crate::path::{child, join, PathView};
use crate::reference::ReferenceView;
use crate::resolve::{
    bundle_path, bundles, cartridge_module_bases, cartridge_module_hits, cartridge_templates,
    existing_bundle, first_slash, key_hit, locale_hit, locales, module_bases, module_candidates,
    module_hit, module_hits, module_in_cartridge, module_in_named, module_in_root,
    named_root_joined, probed_dirs, probed_files, read_files, resolution, resource_hits, start_of,
    template_candidates, template_hits, templates_dir, trim_leading_slashes, HitView,
};
use crate::text::starts_with;
use crate::workspace::{ordered_from, owner, CartridgeView};

verus! {

proof fn lemma_filter_map_congruent<A, B>(s: Seq<A>, f: spec_fn(A) -> Option<B>, g: spec_fn(A) -> Option<B>)
    requires
        forall|i: int| 0 <= i < s.len() ==> f(#[trigger] s[i]) == g(s[i]),
    ensures
        s.filter_map(f) == s.filter_map(g),
    decreases s.len(),
{
    if s.len() > 0 {
        assert forall|i: int| 0 <= i < s.drop_last().len() implies f(
            #[trigger] s.drop_last()[i],
        ) == g(s.drop_last()[i]) by {
            assert(s.drop_last()[i] == s[i]);
        }
        lemma_filter_map_congruent(s.drop_last(), f, g);
        assert(f(s.last()) == g(s[s.len() - 1]));
    }
}

proof fn lemma_flat_map_congruent<A, B>(s: Seq<A>, f: spec_fn(A) -> Seq<B>, g: spec_fn(A) -> Seq<B>)
    requires
        forall|i: int| 0 <= i < s.len() ==> f(#[trigger] s[i]) == g(s[i]),
    ensures
        s.flat_map(f) == s.flat_map(g),
{
    assert(s.map_values(f) =~= s.map_values(g));
}

proof fn lemma_flat_map_contains<A, B>(s: Seq<A>, f: spec_fn(A) -> Seq<B>, i: int, j: int)
    requires
        0 <= i < s.len(),
        0 <= j < f(s[i]).len(),
    ensures
        s.flat_map(f).contains(f(s[i])[j]),
    decreases s.len(),
{
    let rest = s.drop_last();
    assert(s =~= rest.push(s.last()));
    rest.lemma_flat_map_push(f, s.last());
    if i == s.len() - 1 {
        assert(s.flat_map(f)[rest.flat_map(f).len() + j] == f(s[i])[j]);
    } else {
        assert(rest[i] == s[i]);
        lemma_flat_map_contains(rest, f, i, j);
        let k = choose|k: int| 0 <= k < rest.flat_map(f).len() && rest.flat_map(f)[k] == f(s[i])[j];
        assert(s.flat_map(f)[k] == f(s[i])[j]);
    }
}

proof fn lemma_filter_map_has<A, B>(s: Seq<A>, f: spec_fn(A) -> Option<B>, i: int)
    requires
        0 <= i < s.len(),
        f(s[i]) is Some,
    ensures
        s.filter_map(f).contains(f(s[i])->0),
    decreases s.len(),
{
    let rest = s.drop_last();
    if i == s.len() - 1 {
        assert(s.filter_map(f) == rest.filter_map(f) + seq![f(s.last())->0]);
        assert(s.filter_map(f)[rest.filter_map(f).len() as int] == f(s[i])->0);
    } else {
        assert(rest[i] == s[i]);
        lemma_filter_map_has(rest, f, i);
        let k = choose|k: int|
            0 <= k < rest.filter_map(f).len() && rest.filter_map(f)[k] == f(s[i])->0;
        match f(s.last()) {
            Some(y) => {
                assert(s.filter_map(f) == rest.filter_map(f) + seq![y]);
            },
            None => {},
        }
        assert(s.filter_map(f)[k] == f(s[i])->0);
    }
}

/// Whether `a` and `b` agree on which of the paths in `ps` are files.
pub open spec fn agree_on_files(a: DiskView, b: DiskView, ps: Seq<PathView>) -> bool {
    forall|p: PathView| #[trigger] ps.contains(p) ==> is_file(a, p) == is_file(b, p)
}

pub open spec fn agree_on_listings(a: DiskView, b: DiskView, dirs: Seq<PathView>) -> bool {
    forall|d: PathView| #[trigger] dirs.contains(d) ==> lookup(a.listings, d) == lookup(b.listings, d)
}

pub open spec fn agree_on_texts(a: DiskView, b: DiskView, ps: Seq<PathView>) -> bool {
    forall|p: PathView| #[trigger] ps.contains(p) ==> lookup(a.texts, p) == lookup(b.texts, p)
}

proof fn lemma_module_hit_agrees(a: DiskView, b: DiskView, candidate: PathView)
    requires
        forall|k: int|
            0 <= k < 5 ==> is_file(a, #[trigger] module_candidates()(candidate)[k]) == is_file(
                b,
                module_candidates()(candidate)[k],
            ),
    ensures
        module_hit(a, candidate) == module_hit(b, candidate),
{
    let c = module_candidates()(candidate);
    assert(is_file(a, c[0]) == is_file(b, c[0]));
    assert(is_file(a, c[1]) == is_file(b, c[1]));
    assert(is_file(a, c[2]) == is_file(b, c[2]));
    assert(is_file(a, c[3]) == is_file(b, c[3]));
    assert(is_file(a, c[4]) == is_file(b, c[4]));
}

/// A module path whose candidates are among the probed paths resolves alike
/// on both disks.
proof fn lemma_base_agrees(
    a: DiskView,
    b: DiskView,
    bases: Seq<PathView>,
    probed: Seq<PathView>,
    i: int,
)
    requires
        probed == bases.flat_map(module_candidates()),
        agree_on_files(a, b, probed),
        0 <= i < bases.len(),
    ensures
        module_hit(a, bases[i]) == module_hit(b, bases[i]),
{
    assert forall|k: int| 0 <= k < 5 implies is_file(
        a,
        #[trigger] module_candidates()(bases[i])[k],
    ) == is_file(b, module_candidates()(bases[i])[k]) by {
        lemma_flat_map_contains(bases, module_candidates(), i, k);
    }
    lemma_module_hit_agree_wrapper(a, b, bases[i]);
}

proof fn lemma_module_hit_agree_wrapper(a: DiskView, b: DiskView, candidate: PathView)
    requires
        forall|k: int|
            0 <= k < 5 ==> is_file(a, #[trigger] module_candidates()(candidate)[k]) == is_file(
                b,
                module_candidates()(candidate)[k],
            ),
    ensures
        module_hit(a, candidate) == module_hit(b, candidate),
{
    lemma_module_hit_agrees(a, b, candidate);
}

proof fn lemma_templates_agree(
    a: DiskView,
    b: DiskView,
    cs: Seq<CartridgeView>,
    from: PathView,
    t: Seq<char>,
)
    requires
        agree_on_listings(a, b, probed_dirs(cs, from, ReferenceView::Template(t))),
        agree_on_files(a, b, probed_files(a, cs, Seq::empty(), from, ReferenceView::Template(t))),
    ensures
        template_hits(a, cs, from, t) == template_hits(b, cs, from, t),
{
    let relative = trim_leading_slashes(t) + ".isml"@;
    let ordered = ordered_from(cs, from);
    let probed = ordered.flat_map(template_candidates(a, relative));
    assert(probed == probed_files(a, cs, Seq::empty(), from, ReferenceView::Template(t)));
    assert forall|i: int| 0 <= i < ordered.len() implies cartridge_templates(a, relative)(
        #[trigger] ordered[i],
    ) == cartridge_templates(b, relative)(ordered[i]) by {
        let c = ordered[i];
        let dir = templates_dir(c);
        let dirs = probed_dirs(cs, from, ReferenceView::Template(t));
        assert(dirs[i] == dir);
        assert(dirs.contains(dir));
        assert(locales(a, dir) == locales(b, dir));
        let ls = locales(a, dir);
        assert forall|k: int| 0 <= k < ls.len() implies locale_hit(a, dir, relative)(
            #[trigger] ls[k],
        ) == locale_hit(b, dir, relative)(ls[k]) by {
            let candidate = join(child(dir, ls[k]), relative);
            assert(template_candidates(a, relative)(c)[k] == candidate);
            lemma_flat_map_contains(ordered, template_candidates(a, relative), i, k);
            assert(probed.contains(candidate));
        }
        lemma_filter_map_congruent(ls, locale_hit(a, dir, relative), locale_hit(b, dir, relative));
    }
    lemma_flat_map_congruent(ordered, cartridge_templates(a, relative), cartridge_templates(b, relative));
}

proof fn lemma_modules_agree(
    a: DiskView,
    b: DiskView,
    cs: Seq<CartridgeView>,
    roots: Seq<PathView>,
    from: PathView,
    m: Seq<char>,
)
    requires
        agree_on_files(a, b, probed_files(a, cs, roots, from, ReferenceView::Module(m))),
    ensures
        module_hits(a, cs, roots, from, m) == module_hits(b, cs, roots, from, m),
{
    let bases = module_bases(cs, roots, from, m);
    let probed = bases.flat_map(module_candidates());
    assert(probed == probed_files(a, cs, roots, from, ReferenceView::Module(m)));
    if starts_with(m, "dw/"@) || starts_with(m, "dw."@) {
    } else if starts_with(m, "./"@) || starts_with(m, "../"@) {
        lemma_base_agrees(a, b, bases, probed, 0);
    } else {
        let cb = cartridge_module_bases(cs, from, m);
        let ordered = ordered_from(cs, from);
        assert forall|i: int| 0 <= i < cb.len() implies module_hit(a, #[trigger] cb[i]) == module_hit(
            b,
            cb[i],
        ) by {
            assert(bases[i] == cb[i]);
            lemma_base_agrees(a, b, bases, probed, i);
        }
        if starts_with(m, "*/"@) {
            assert forall|i: int| 0 <= i < ordered.len() implies module_in_cartridge(a, m.skip(2))(
                #[trigger] ordered[i],
            ) == module_in_cartridge(b, m.skip(2))(ordered[i]) by {
                assert(cb[i] == join(ordered[i].root, m.skip(2)));
            }
            lemma_filter_map_congruent(
                ordered,
                module_in_cartridge(a, m.skip(2)),
                module_in_cartridge(b, m.skip(2)),
            );
        } else if starts_with(m, "~/"@) {
            match owner(cs, from) {
                Some(j) => {
                    assert(cb[0] == join(cs[j].root, m.skip(2)));
                },
                None => {},
            }
        } else {
            match first_slash(m, 0) {
                Some(k) => {
                    let name = m.take(k);
                    let rest = m.skip(k + 1);
                    let pick = named_root_joined(name, rest);
                    assert(cb == ordered.filter_map(pick));
                    assert forall|i: int| 0 <= i < ordered.len() implies module_in_named(
                        a,
                        name,
                        rest,
                    )(#[trigger] ordered[i]) == module_in_named(b, name, rest)(ordered[i]) by {
                        if ordered[i].name == name {
                            lemma_filter_map_has(ordered, pick, i);
                            let base = join(ordered[i].root, rest);
                            assert(cb.contains(base));
                            let q = choose|q: int| 0 <= q < cb.len() && cb[q] == base;
                            assert(module_hit(a, cb[q]) == module_hit(b, cb[q]));
                        }
                    }
                    lemma_filter_map_congruent(
                        ordered,
                        module_in_named(a, name, rest),
                        module_in_named(b, name, rest),
                    );
                },
                None => {},
            }
        }
        assert(cartridge_module_hits(a, cs, from, m) == cartridge_module_hits(b, cs, from, m));
        assert forall|i: int| 0 <= i < roots.len() implies module_in_root(a, m)(#[trigger] roots[i])
            == module_in_root(b, m)(roots[i]) by {
            assert(bases[cb.len() + i] == join(roots[i], m));
            lemma_base_agrees(a, b, bases, probed, cb.len() + i);
        }
        lemma_filter_map_congruent(roots, module_in_root(a, m), module_in_root(b, m));
    }
}

proof fn lemma_resources_agree(
    a: DiskView,
    b: DiskView,
    cs: Seq<CartridgeView>,
    from: PathView,
    key: Seq<char>,
    bundle: Seq<char>,
)
    requires
        agree_on_files(
            a,
            b,
            probed_files(a, cs, Seq::empty(), from, ReferenceView::Resource { key, bundle }),
        ),
        agree_on_texts(a, b, read_files(a, cs, from, ReferenceView::Resource { key, bundle })),
    ensures
        resource_hits(a, cs, from, key, bundle) == resource_hits(b, cs, from, key, bundle),
{
    let file_name = bundle + ".properties"@;
    let ordered = ordered_from(cs, from);
    let probed = probed_files(a, cs, Seq::empty(), from, ReferenceView::Resource { key, bundle });
    assert forall|i: int| 0 <= i < ordered.len() implies existing_bundle(a, file_name)(
        #[trigger] ordered[i],
    ) == existing_bundle(b, file_name)(ordered[i]) by {
        assert(probed[i] == bundle_path(ordered[i], file_name));
        assert(probed.contains(bundle_path(ordered[i], file_name)));
    }
    lemma_filter_map_congruent(ordered, existing_bundle(a, file_name), existing_bundle(b, file_name));
    let found = bundles(a, cs, from, bundle);
    assert(found == bundles(b, cs, from, bundle));
    assert forall|k: int| 0 <= k < found.len() implies key_hit(a, key)(#[trigger] found[k]) == key_hit(
        b,
        key,
    )(found[k]) by {
        assert(found.contains(found[k]));
    }
    lemma_filter_map_congruent(found, key_hit(a, key), key_hit(b, key));
}

/// Resolving a reference reads no more than its probes name: two disks that
/// agree on the listings of the probed folders, on which probed paths are
/// files, and on the contents of the files it reads, give the same places.
pub proof fn law_resolution_reads_only_probes(
    a: DiskView,
    b: DiskView,
    cs: Seq<CartridgeView>,
    roots: Seq<PathView>,
    from: PathView,
    reference: ReferenceView,
)
    requires
        agree_on_listings(a, b, probed_dirs(cs, from, reference)),
        agree_on_files(a, b, probed_files(a, cs, roots, from, reference)),
        agree_on_texts(a, b, read_files(a, cs, from, reference)),
    ensures
        resolution(a, cs, roots, from, reference) == resolution(b, cs, roots, from, reference),
{
    match reference {
        ReferenceView::Template(t) => {
            assert(probed_files(a, cs, roots, from, reference) == probed_files(
                a,
                cs,
                Seq::empty(),
                from,
                reference,
            ));
            lemma_templates_agree(a, b, cs, from, t);
        },
        ReferenceView::Module(m) => {
            lemma_modules_agree(a, b, cs, roots, from, m);
        },
        ReferenceView::Resource { key, bundle } => {
            assert(probed_files(a, cs, roots, from, reference) == probed_files(
                a,
                cs,
                Seq::empty(),
                from,
                reference,
            ));
            lemma_resources_agree(a, b, cs, from, key, bundle);
        },
    }
}

/// The paths a module specifier resolves to are files.
proof fn lemma_module_hit_is_file(d: DiskView, candidate: PathView)
    ensures
        module_hit(d, candidate) matches Some(h) ==> is_file(d, h.path) && h.line == 0,
{
}

proof fn lemma_filter_map_all<A, B>(s: Seq<A>, f: spec_fn(A) -> Option<B>, pred: spec_fn(B) -> bool)
    requires
        forall|i: int| 0 <= i < s.len() ==> (#[trigger] f(s[i]) matches Some(y) ==> pred(y)),
    ensures
        forall|k: int| 0 <= k < s.filter_map(f).len() ==> pred(#[trigger] s.filter_map(f)[k]),
    decreases s.len(),
{
    if s.len() > 0 {
        let rest = s.drop_last();
        assert forall|i: int| 0 <= i < rest.len() implies (#[trigger] f(rest[i]) matches Some(y)
            ==> pred(y)) by {
            assert(rest[i] == s[i]);
        }
        lemma_filter_map_all(rest, f, pred);
        assert(f(s.last()) == f(s[s.len() - 1]));
        match f(s.last()) {
            Some(y) => {
                assert(s.filter_map(f) == rest.filter_map(f) + seq![y]);
                assert forall|k: int| 0 <= k < s.filter_map(f).len() implies pred(
                    #[trigger] s.filter_map(f)[k],
                ) by {
                    if k < rest.filter_map(f).len() {
                        assert(s.filter_map(f)[k] == rest.filter_map(f)[k]);
                    }
                }
            },
            None => {
                assert(s.filter_map(f) == rest.filter_map(f));
            },
        }
    }
}

proof fn lemma_flat_map_all<A, B>(s: Seq<A>, f: spec_fn(A) -> Seq<B>, pred: spec_fn(B) -> bool)
    requires
        forall|i: int, j: int| 0 <= i < s.len() && 0 <= j < f(s[i]).len() ==> pred(#[trigger] f(s[i])[j]),
    ensures
        forall|k: int| 0 <= k < s.flat_map(f).len() ==> pred(#[trigger] s.flat_map(f)[k]),
    decreases s.len(),
{
    if s.len() > 0 {
        let rest = s.drop_last();
        assert forall|i: int, j: int| 0 <= i < rest.len() && 0 <= j < f(rest[i]).len() implies pred(
            #[trigger] f(rest[i])[j],
        ) by {
            assert(rest[i] == s[i]);
        }
        lemma_flat_map_all(rest, f, pred);
        assert(s =~= rest.push(s.last()));
        rest.lemma_flat_map_push(f, s.last());
        assert forall|k: int| 0 <= k < s.flat_map(f).len() implies pred(#[trigger] s.flat_map(f)[k]) by {
            if k >= rest.flat_map(f).len() {
                let j = k - rest.flat_map(f).len();
                assert(s.flat_map(f)[k] == f(s[s.len() - 1])[j]);
            } else {
                assert(s.flat_map(f)[k] == rest.flat_map(f)[k]);
            }
        }
    }
}

pub open spec fn is_file_of(d: DiskView) -> spec_fn(HitView) -> bool {
    |h: HitView| is_file(d, h.path)
}

pub open spec fn is_file_path(d: DiskView) -> spec_fn(PathView) -> bool {
    |p: PathView| is_file(d, p)
}

/// Every place a resolution answers is a file of the disk it was given.
pub proof fn law_hits_are_files(
    d: DiskView,
    cs: Seq<CartridgeView>,
    roots: Seq<PathView>,
    from: PathView,
    reference: ReferenceView,
)
    ensures
        forall|k: int|
            0 <= k < resolution(d, cs, roots, from, reference).len() ==> is_file(
                d,
                #[trigger] resolution(d, cs, roots, from, reference)[k].path,
            ),
{
    let hits = resolution(d, cs, roots, from, reference);
    let p = is_file_of(d);
    match reference {
        ReferenceView::Template(t) => {
            let relative = trim_leading_slashes(t) + ".isml"@;
            let ordered = ordered_from(cs, from);
            assert forall|i: int, j: int|
                0 <= i < ordered.len() && 0 <= j < cartridge_templates(d, relative)(
                    ordered[i],
                ).len() implies p(#[trigger] cartridge_templates(d, relative)(ordered[i])[j]) by {
                let dir = templates_dir(ordered[i]);
                lemma_filter_map_all(locales(d, dir), locale_hit(d, dir, relative), p);
            }
            lemma_flat_map_all(ordered, cartridge_templates(d, relative), p);
            assert forall|k: int| 0 <= k < hits.len() implies is_file(d, #[trigger] hits[k].path) by {
                assert(p(hits[k]));
            }
        },
        ReferenceView::Module(m) => {
            assert forall|c: PathView| #[trigger] module_hit(d, c) matches Some(h) ==> p(h) by {
                lemma_module_hit_is_file(d, c);
            }
            let ordered = ordered_from(cs, from);
            if starts_with(m, "dw/"@) || starts_with(m, "dw."@) {
            } else if starts_with(m, "./"@) || starts_with(m, "../"@) {
            } else {
                if starts_with(m, "*/"@) {
                    lemma_filter_map_all(ordered, module_in_cartridge(d, m.skip(2)), p);
                } else if starts_with(m, "~/"@) {
                } else {
                    match first_slash(m, 0) {
                        Some(k) => {
                            lemma_filter_map_all(
                                ordered,
                                module_in_named(d, m.take(k), m.skip(k + 1)),
                                p,
                            );
                        },
                        None => {},
                    }
                }
                lemma_filter_map_all(roots, module_in_root(d, m), p);
            }
            assert forall|k: int| 0 <= k < hits.len() implies is_file(d, #[trigger] hits[k].path) by {
                assert(p(hits[k]));
            }
        },
        ReferenceView::Resource { key, bundle } => {
            let file_name = bundle + ".properties"@;
            let ordered = ordered_from(cs, from);
            let found = bundles(d, cs, from, bundle);
            lemma_filter_map_all(ordered, existing_bundle(d, file_name), is_file_path(d));
            assert forall|i: int| 0 <= i < found.len() implies (#[trigger] key_hit(d, key)(found[i]) matches Some(
                h,
            ) ==> p(h)) by {
                assert(is_file_path(d)(found[i]));
            }
            lemma_filter_map_all(found, key_hit(d, key), p);
            assert forall|k: int| 0 <= k < hits.len() implies is_file(d, #[trigger] hits[k].path) by {
                if found.filter_map(key_hit(d, key)).len() == 0 {
                    assert(hits[k] == start_of(found[k]));
                    assert(is_file_path(d)(found[k]));
                } else {
                    assert(p(hits[k]));
                }
            }
        },
    }
}

} // verus!
