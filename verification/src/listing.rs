//! Folder import and font enumeration: what order the application shows.
//!
//! Imported images are filtered to the known raster extensions and sorted
//! by name; font family names are sorted and deduplicated.  Sorting is by
//! byte-wise lexicographic order, the order `Ord` gives strings.

use vstd::prelude::*;
use vstd::multiset::Multiset;
use vstd::seq_lib::lemma_multiset_commutative;
use crate::bytes::{lower, lex_le, lex_le_bytes, lemma_lex_total, lemma_lex_trans, bytes_eq};
use crate::names::{last_dot, last_dot_index};
use crate::proxy::vecs_view;

verus! {

/// One image offered for import: its name and filesystem path, with inline
/// data and thumbnail loaded lazily later.
pub struct ImageInfo {
    pub name: Vec<u8>,
    pub path: Vec<u8>,
    pub data_url: Vec<u8>,
    pub thumbnail: Vec<u8>,
}

/// The mathematical shadow of `ImageInfo`.
pub ghost struct ImageInfoView {
    pub name: Seq<u8>,
    pub path: Seq<u8>,
    pub data_url: Seq<u8>,
    pub thumbnail: Seq<u8>,
}

impl View for ImageInfo {
    type V = ImageInfoView;

    open spec fn view(&self) -> ImageInfoView {
        ImageInfoView {
            name: self.name@,
            path: self.path@,
            data_url: self.data_url@,
            thumbnail: self.thumbnail@,
        }
    }
}

/// The views of a list of images.
pub open spec fn infos_view(s: Seq<ImageInfo>) -> Seq<ImageInfoView> {
    s.map_values(|im: ImageInfo| im@)
}

/// The extensions accepted from a folder.
pub open spec fn image_extensions() -> Seq<Seq<u8>> {
    seq![
        seq!['p' as u8, 'n' as u8, 'g' as u8],
        seq!['j' as u8, 'p' as u8, 'g' as u8],
        seq!['j' as u8, 'p' as u8, 'e' as u8, 'g' as u8],
        seq!['w' as u8, 'e' as u8, 'b' as u8, 'p' as u8],
        seq!['b' as u8, 'm' as u8, 'p' as u8],
        seq!['g' as u8, 'i' as u8, 'f' as u8],
        seq!['t' as u8, 'i' as u8, 'f' as u8],
        seq!['t' as u8, 'i' as u8, 'f' as u8, 'f' as u8],
        seq!['a' as u8, 'v' as u8, 'i' as u8, 'f' as u8],
        seq!['h' as u8, 'e' as u8, 'i' as u8, 'c' as u8],
        seq!['h' as u8, 'e' as u8, 'i' as u8, 'f' as u8],
    ]
}

/// Whether a name's extension — lowercased — is an accepted raster
/// extension.
pub open spec fn has_image_ext(name: Seq<u8>) -> bool {
    match last_dot(name) {
        Some(i) => image_extensions().contains(lower(name.subrange(i + 1, name.len() as int))),
        None => false,
    }
}

/// Decides `has_image_ext`.
pub fn is_image_name(name: &Vec<u8>) -> (r: bool)
    ensures
        r <==> has_image_ext(name@),
{
    let i = match last_dot_index(name) {
        Some(i) => i,
        None => {
            return false;
        }
    };
    proof {
        crate::names::lemma_last_dot_in_range(name@);
    }
    let n = name.len();
    let mut ext: Vec<u8> = Vec::new();
    let mut j: usize = i + 1;
    while j < n
        invariant
            i + 1 <= j <= n == name@.len(),
            ext@ == name@.subrange(i + 1, j as int),
        decreases n - j,
    {
        ext.push(name[j]);
        proof {
            assert(name@.subrange(i + 1, j as int) + seq![name@[j as int]]
                =~= name@.subrange(i + 1, j + 1));
        }
        j += 1;
    }
    let low = crate::bytes::lower_bytes(&ext);
    proof {
        assert(low@ == lower(name@.subrange(i + 1, name@.len() as int)));
    }
    is_known_extension(&low)
}

/// Whether a lowercased extension is in the accepted list.
fn is_known_extension(low: &Vec<u8>) -> (r: bool)
    ensures
        r <==> image_extensions().contains(low@),
{
    let png: Vec<u8> = vec!['p' as u8, 'n' as u8, 'g' as u8];
    let jpg: Vec<u8> = vec!['j' as u8, 'p' as u8, 'g' as u8];
    let jpeg: Vec<u8> = vec!['j' as u8, 'p' as u8, 'e' as u8, 'g' as u8];
    let webp: Vec<u8> = vec!['w' as u8, 'e' as u8, 'b' as u8, 'p' as u8];
    let bmp: Vec<u8> = vec!['b' as u8, 'm' as u8, 'p' as u8];
    let gif: Vec<u8> = vec!['g' as u8, 'i' as u8, 'f' as u8];
    let tif: Vec<u8> = vec!['t' as u8, 'i' as u8, 'f' as u8];
    let tiff: Vec<u8> = vec!['t' as u8, 'i' as u8, 'f' as u8, 'f' as u8];
    let avif: Vec<u8> = vec!['a' as u8, 'v' as u8, 'i' as u8, 'f' as u8];
    let heic: Vec<u8> = vec!['h' as u8, 'e' as u8, 'i' as u8, 'c' as u8];
    let heif: Vec<u8> = vec!['h' as u8, 'e' as u8, 'i' as u8, 'f' as u8];
    proof {
        assert(png@ =~= image_extensions()[0]);
        assert(jpg@ =~= image_extensions()[1]);
        assert(jpeg@ =~= image_extensions()[2]);
        assert(webp@ =~= image_extensions()[3]);
        assert(bmp@ =~= image_extensions()[4]);
        assert(gif@ =~= image_extensions()[5]);
        assert(tif@ =~= image_extensions()[6]);
        assert(tiff@ =~= image_extensions()[7]);
        assert(avif@ =~= image_extensions()[8]);
        assert(heic@ =~= image_extensions()[9]);
        assert(heif@ =~= image_extensions()[10]);
    }
    let r = bytes_eq(low, &png) || bytes_eq(low, &jpg) || bytes_eq(low, &jpeg) || bytes_eq(
        low,
        &webp,
    ) || bytes_eq(low, &bmp) || bytes_eq(low, &gif) || bytes_eq(low, &tif) || bytes_eq(
        low,
        &tiff,
    ) || bytes_eq(low, &avif) || bytes_eq(low, &heic) || bytes_eq(low, &heif);
    proof {
        if r {
            assert(image_extensions().contains(low@));
        } else {
            assert forall|k: int| 0 <= k < image_extensions().len() implies image_extensions()[k]
                != low@ by {
            }
        }
    }
    r
}

/// The images whose names carry an accepted extension, in their given
/// order.
pub open spec fn spec_filter_images(s: Seq<ImageInfoView>) -> Seq<ImageInfoView>
    decreases s.len(),
{
    if s.len() == 0 {
        Seq::empty()
    } else {
        spec_filter_images(s.drop_last()) + if has_image_ext(s.last().name) {
            seq![s.last()]
        } else {
            Seq::empty()
        }
    }
}

/// Names appear in nondecreasing order.
pub open spec fn sorted_by_name(s: Seq<ImageInfoView>) -> bool {
    forall|i: int, j: int| 0 <= i < j < s.len() ==> lex_le(#[trigger] s[i].name, #[trigger] s[j].name)
}

/// Keeps the images whose names carry an accepted raster extension.
pub fn filter_image_entries(entries: Vec<ImageInfo>) -> (r: Vec<ImageInfo>)
    ensures
        infos_view(r@) == spec_filter_images(infos_view(entries@)),
{
    let mut out: Vec<ImageInfo> = Vec::new();
    let ghost all = infos_view(entries@);
    let n = entries.len();
    proof {
        assert(all.subrange(0, 0) =~= Seq::<ImageInfoView>::empty());
    }
    let mut i: usize = 0;
    while i < n
        invariant
            n == entries@.len(),
            i <= n,
            all == infos_view(entries@),
            infos_view(out@) =~~= spec_filter_images(all.subrange(0, i as int)),
        decreases n - i,
    {
        let ghost before = infos_view(out@);
        if is_image_name(&entries[i].name) {
            let im = ImageInfo {
                name: crate::bytes::clone_bytes(&entries[i].name),
                path: crate::bytes::clone_bytes(&entries[i].path),
                data_url: crate::bytes::clone_bytes(&entries[i].data_url),
                thumbnail: crate::bytes::clone_bytes(&entries[i].thumbnail),
            };
            proof {
                assert(im@ == all[i as int]);
            }
            out.push(im);
        }
        proof {
            assert(all.subrange(0, i + 1).drop_last() =~= all.subrange(0, i as int));
            assert(all.subrange(0, i + 1).last() == all[i as int]);
            assert(infos_view(out@) =~~= spec_filter_images(all.subrange(0, i + 1)));
        }
        i += 1;
    }
    proof {
        assert(all.subrange(0, n as int) =~= all);
    }
    out
}

/// Inserting keeps the multiset of a sequence, adding the element.
proof fn lemma_insert_multiset(s: Seq<ImageInfoView>, p: int, x: ImageInfoView)
    requires
        0 <= p <= s.len(),
    ensures
        s.insert(p, x).to_multiset() == s.to_multiset().insert(x),
{
    broadcast use vstd::seq_lib::group_to_multiset_ensures;

    assert(s.insert(p, x) =~= s.take(p) + (seq![x] + s.skip(p)));
    lemma_multiset_commutative(s.take(p), seq![x] + s.skip(p));
    lemma_multiset_commutative(seq![x], s.skip(p));
    assert(s =~= s.take(p) + s.skip(p));
    lemma_multiset_commutative(s.take(p), s.skip(p));
    assert(seq![x] =~= Seq::<ImageInfoView>::empty().push(x));
    assert(seq![x].to_multiset() =~= Multiset::<ImageInfoView>::empty().insert(x));
    assert(s.insert(p, x).to_multiset() =~= s.to_multiset().insert(x));
}

/// Inserts one image into a name-sorted list, keeping it sorted.
fn insert_sorted(out: &mut Vec<ImageInfo>, x: ImageInfo)
    requires
        sorted_by_name(infos_view(old(out)@)),
    ensures
        sorted_by_name(infos_view(final(out)@)),
        infos_view(final(out)@).to_multiset() == infos_view(old(out)@).to_multiset().insert(x@),
{
    let ghost ov0 = out@;
    let n = out.len();
    let mut p: usize = 0;
    while p < n && lex_le_bytes(&out[p].name, &x.name)
        invariant
            p <= n == out@.len(),
            out@ == ov0,
            sorted_by_name(infos_view(out@)),
            forall|j: int| 0 <= j < p ==> lex_le(#[trigger] infos_view(out@)[j].name, x@.name),
        decreases n - p,
    {
        proof {
            assert(infos_view(out@)[p as int].name == out@[p as int]@.name);
        }
        p += 1;
    }
    let ghost ov = infos_view(out@);
    proof {
        if p < n {
            lemma_lex_total(ov[p as int].name, x@.name);
        }
    }
    out.insert(p, x);
    proof {
        let nv = infos_view(out@);
        assert(nv =~= ov.insert(p as int, x@)) by {
            assert forall|k: int| 0 <= k < nv.len() implies nv[k] == ov.insert(p as int, x@)[k]
                by {
                assert(nv[k] == out@[k]@);
            }
        }
        lemma_insert_multiset(ov, p as int, x@);
        assert forall|i: int, j: int| 0 <= i < j < nv.len() implies lex_le(
            #[trigger] nv[i].name,
            #[trigger] nv[j].name,
        ) by {
            if j < p {
                assert(nv[i] == ov[i] && nv[j] == ov[j]);
            } else if i < p && j == p {
                assert(nv[i] == ov[i] && nv[j] == x@);
            } else if i < p && j > p {
                assert(nv[i] == ov[i] && nv[j] == ov[j - 1]);
                if j - 1 < p {
                    assert(lex_le(ov[i].name, x@.name) && lex_le(x@.name, ov[j - 1].name))
                        by {
                        assert(i < j - 1 || i == j - 1);
                    }
                }
                if i < j - 1 {
                } else {
                    // i == j - 1 == p - 1 < p: ov[i] <= x <= ov[p] is not
                    // what we need; ov[i] <= x and nv[j] == ov[i] is the
                    // same element
                }
            } else if i == p {
                assert(nv[i] == x@ && nv[j] == ov[j - 1]);
                assert(j - 1 >= p);
                if p < ov.len() {
                    assert(lex_le(x@.name, ov[p as int].name));
                    if j - 1 > p {
                        assert(lex_le(ov[p as int].name, ov[j - 1].name));
                        lemma_lex_trans(x@.name, ov[p as int].name, ov[j - 1].name);
                    }
                }
            } else {
                assert(nv[i] == ov[i - 1] && nv[j] == ov[j - 1]);
            }
        }
    }
}

/// Sorts images by name: the result is ordered and holds exactly the given
/// images.
pub fn sort_images(images: Vec<ImageInfo>) -> (r: Vec<ImageInfo>)
    ensures
        sorted_by_name(infos_view(r@)),
        infos_view(r@).to_multiset() == infos_view(images@).to_multiset(),
{
    broadcast use vstd::seq_lib::group_to_multiset_ensures;

    let mut rest = images;
    let mut out: Vec<ImageInfo> = Vec::new();
    let ghost all = infos_view(rest@);
    while rest.len() > 0
        invariant
            sorted_by_name(infos_view(out@)),
            infos_view(out@).to_multiset().add(infos_view(rest@).to_multiset())
                == all.to_multiset(),
        decreases rest@.len(),
    {
        let ghost rv = infos_view(rest@);
        let ghost out_ms = infos_view(out@).to_multiset();
        let x = rest.remove(0);
        proof {
            rv.to_multiset_ensures();
            assert(rv.len() > 0);
            assert(infos_view(rest@) =~= rv.remove(0)) by {
                assert forall|k: int| 0 <= k < rest@.len() implies infos_view(rest@)[k]
                    == rv.remove(0)[k] by {
                    assert(infos_view(rest@)[k] == rest@[k]@);
                }
            }
            assert(rv.remove(0).to_multiset() =~= rv.to_multiset().remove(rv[0]));
            assert(x@ == rv[0]);
            assert(rv.contains(rv[0]));
            assert(rv.to_multiset().count(rv[0]) > 0);
        }
        insert_sorted(&mut out, x);
        proof {
            assert(infos_view(out@).to_multiset() == out_ms.insert(x@));
            assert(infos_view(out@).to_multiset().add(infos_view(rest@).to_multiset())
                =~= all.to_multiset());
        }
    }
    proof {
        assert(infos_view(rest@).to_multiset() =~= Multiset::<ImageInfoView>::empty());
        assert(infos_view(out@).to_multiset() =~= all.to_multiset());
    }
    out
}

/// Whether some element of `vs` is the byte string `x`.
pub open spec fn contains_name(vs: Seq<Seq<u8>>, x: Seq<u8>) -> bool {
    exists|j: int| 0 <= j < vs.len() && vs[j] == x
}

/// Strictly increasing: sorted with no repeats.
pub open spec fn strictly_sorted(vs: Seq<Seq<u8>>) -> bool {
    forall|i: int, j: int| 0 <= i < j < vs.len() ==> lex_le(#[trigger] vs[i], #[trigger] vs[j])
        && vs[i] != vs[j]
}

/// Inserts a name into a strictly sorted list unless already present.
fn insert_unique(out: &mut Vec<Vec<u8>>, x: Vec<u8>)
    requires
        strictly_sorted(vecs_view(old(out)@)),
    ensures
        strictly_sorted(vecs_view(final(out)@)),
        forall|y: Seq<u8>| contains_name(vecs_view(final(out)@), y) <==> (contains_name(
            vecs_view(old(out)@),
            y,
        ) || y == x@),
{
    let ghost ov0 = out@;
    let n = out.len();
    let mut p: usize = 0;
    while p < n && lex_le_bytes(&out[p], &x)
        invariant
            p <= n == out@.len(),
            out@ == ov0,
            strictly_sorted(vecs_view(out@)),
            forall|j: int| 0 <= j < p ==> lex_le(#[trigger] vecs_view(out@)[j], x@),
            forall|j: int| 0 <= j < p ==> vecs_view(out@)[j] != x@,
        decreases n - p,
    {
        if bytes_eq(&out[p], &x) {
            proof {
                assert(out@ == old(out)@);
                assert(vecs_view(out@)[p as int] == x@);
                assert forall|y: Seq<u8>| contains_name(vecs_view(out@), y) <==> (
                    contains_name(vecs_view(old(out)@), y) || y == x@) by {
                    if y == x@ {
                        assert(vecs_view(out@)[p as int] == y);
                    }
                }
            }
            return;
        }
        proof {
            assert(vecs_view(out@)[p as int] == out@[p as int]@);
        }
        p += 1;
    }
    let ghost ov = vecs_view(out@);
    proof {
        if p < n {
            lemma_lex_total(ov[p as int], x@);
            // x is not out[p]: equality would contradict the failed test
            crate::bytes::lemma_lex_refl(x@);
        }
    }
    out.insert(p, x);
    proof {
        let nv = vecs_view(out@);
        assert(nv =~= ov.insert(p as int, x@)) by {
            assert forall|k: int| 0 <= k < nv.len() implies nv[k] == ov.insert(p as int, x@)[k]
                by {
                assert(nv[k] == out@[k]@);
            }
        }
        assert forall|i: int, j: int| 0 <= i < j < nv.len() implies lex_le(
            #[trigger] nv[i],
            #[trigger] nv[j],
        ) && nv[i] != nv[j] by {
            if j < p {
            } else if i < p && j == p {
                assert(nv[i] == ov[i] && nv[j] == x@);
            } else if i < p && j > p {
                assert(nv[i] == ov[i] && nv[j] == ov[j - 1]);
            } else if i == p {
                assert(nv[i] == x@ && nv[j] == ov[j - 1]);
                assert(j - 1 >= p);
                if p < ov.len() {
                    assert(lex_le(x@, ov[p as int]));
                    assert(x@ != ov[p as int]) by {
                        crate::bytes::lemma_lex_refl(x@);
                    }
                    if j - 1 > p {
                        assert(lex_le(ov[p as int], ov[j - 1]) && ov[p as int] != ov[j - 1]);
                        lemma_lex_trans(x@, ov[p as int], ov[j - 1]);
                        assert(x@ != ov[j - 1]) by {
                            if x@ == ov[j - 1] {
                                crate::bytes::lemma_lex_antisym(x@, ov[p as int]);
                            }
                        }
                    }
                }
            } else {
                assert(nv[i] == ov[i - 1] && nv[j] == ov[j - 1]);
            }
        }
        assert forall|y: Seq<u8>| contains_name(nv, y) <==> (contains_name(ov, y) || y == x@)
            by {
            if contains_name(ov, y) {
                let j = choose|j: int| 0 <= j < ov.len() && ov[j] == y;
                if j < p {
                    assert(nv[j] == y);
                } else {
                    assert(nv[j + 1] == y);
                }
            }
            if y == x@ {
                assert(nv[p as int] == y);
            }
            if contains_name(nv, y) {
                let j = choose|j: int| 0 <= j < nv.len() && nv[j] == y;
                if j < p {
                    assert(ov[j] == y);
                } else if j == p {
                } else {
                    assert(ov[j - 1] == y);
                }
            }
        }
    }
}

/// Sorts font family names and removes repeats: the result is strictly
/// ordered and holds a name exactly when the input does.
pub fn sort_dedup_fonts(fonts: Vec<Vec<u8>>) -> (r: Vec<Vec<u8>>)
    ensures
        strictly_sorted(vecs_view(r@)),
        forall|y: Seq<u8>| contains_name(vecs_view(r@), y) <==> contains_name(
            vecs_view(fonts@),
            y,
        ),
{
    let mut rest = fonts;
    let mut out: Vec<Vec<u8>> = Vec::new();
    let ghost all = vecs_view(rest@);
    let ghost done: Seq<Seq<u8>> = Seq::empty();
    while rest.len() > 0
        invariant
            strictly_sorted(vecs_view(out@)),
            done + vecs_view(rest@) =~= all,
            forall|y: Seq<u8>| contains_name(vecs_view(out@), y) <==> contains_name(done, y),
        decreases rest@.len(),
    {
        let ghost rv = vecs_view(rest@);
        let ghost done0 = done;
        let x = rest.remove(0);
        proof {
            assert(vecs_view(rest@) =~= rv.drop_first()) by {
                assert forall|k: int| 0 <= k < rest@.len() implies vecs_view(rest@)[k]
                    == rv.drop_first()[k] by {
                    assert(vecs_view(rest@)[k] == rest@[k]@);
                }
            }
            assert(x@ == rv[0]);
            done = done0 + seq![x@];
        }
        insert_unique(&mut out, x);
        proof {
            assert(done + vecs_view(rest@) =~= all);
            assert forall|y: Seq<u8>| contains_name(vecs_view(out@), y) <==> contains_name(
                done,
                y,
            ) by {
                if contains_name(done, y) {
                    let j = choose|j: int| 0 <= j < done.len() && done[j] == y;
                    if j < done0.len() {
                        assert(contains_name(done0, y));
                    } else {
                        assert(y == x@);
                    }
                }
                if contains_name(done0, y) {
                    let j = choose|j: int| 0 <= j < done0.len() && done0[j] == y;
                    assert(done[j] == y);
                }
                if y == x@ {
                    assert(done[done.len() - 1] == y);
                }
            }
        }
    }
    proof {
        assert(vecs_view(rest@).len() == 0);
        assert(done =~= all);
    }
    out
}

} // verus!
