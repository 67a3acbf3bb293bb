//! The project archive codec: a metadata document plus per-image original,
//! mask and final rasters, to and from a single zip container.
//!
//! The container's layout is fixed: `project.json` holds the pretty-printed
//! metadata; `originals/<name>` the untouched original bytes of each image;
//! `masks/<name>.png` its mask, always normalized to a 1-bit raster; and,
//! read back only, `finals/<name>.png` a rendered page.  Image names are
//! archive keys, so a name that could escape its folder is refused
//! (`valid_name`); records whose name or pixel source cannot be used are
//! skipped, never fatal.  When two records share a name the later one wins,
//! exactly as `entries_map` folds its inserts.

use vstd::prelude::*;
use crate::bytes::{push_all, starts_with, opt_view, opt_seq_view, clone_bytes};
use crate::names::{
    valid_name, is_valid_name, spec_to_png_name, to_png_name, spec_mime_of, mime_for_name, Mime,
    png_suffix,
};
use crate::b64::{
    spec_data_url_bytes, decode_data_url, spec_data_url, make_data_url, encodable,
};
use crate::mask::{gray_image_of, spec_mask_png, decode_gray, mask_png};
use crate::archive::{
    ArchiveWriter, Archive, writer_entries, archive_entries, zip_entries_of, no_entries,
    writer_sound, zip_clean, archive_clean, key_ok, data_cap,
};
use crate::jsondoc::{json_pretty_of, json_pretty, image_names_of, json_image_names};

verus! {

// ---------------------------------------------------------------------------
// Entry keys
// ---------------------------------------------------------------------------

/// `project.json`, the metadata entry's key.
pub open spec fn project_json_key() -> Seq<u8> {
    seq![
        'p' as u8, 'r' as u8, 'o' as u8, 'j' as u8, 'e' as u8, 'c' as u8, 't' as u8,
        '.' as u8, 'j' as u8, 's' as u8, 'o' as u8, 'n' as u8,
    ]
}

/// `originals/`.
pub open spec fn originals_dir() -> Seq<u8> {
    seq![
        'o' as u8, 'r' as u8, 'i' as u8, 'g' as u8, 'i' as u8, 'n' as u8, 'a' as u8,
        'l' as u8, 's' as u8, '/' as u8,
    ]
}

/// `masks/`.
pub open spec fn masks_dir() -> Seq<u8> {
    seq!['m' as u8, 'a' as u8, 's' as u8, 'k' as u8, 's' as u8, '/' as u8]
}

/// `finals/`.
pub open spec fn finals_dir() -> Seq<u8> {
    seq!['f' as u8, 'i' as u8, 'n' as u8, 'a' as u8, 'l' as u8, 's' as u8, '/' as u8]
}

/// `imported/`, the synthesized path prefix of an imported original.
pub open spec fn imported_dir() -> Seq<u8> {
    seq![
        'i' as u8, 'm' as u8, 'p' as u8, 'o' as u8, 'r' as u8, 't' as u8, 'e' as u8,
        'd' as u8, '/' as u8,
    ]
}

/// `temp://`, the path scheme of an image that exists only inline.
pub open spec fn temp_prefix() -> Seq<u8> {
    seq!['t' as u8, 'e' as u8, 'm' as u8, 'p' as u8, ':' as u8, '/' as u8, '/' as u8]
}

/// The key of an image's original entry.
pub open spec fn originals_key(name: Seq<u8>) -> Seq<u8> {
    originals_dir() + name
}

/// The key of a mask entry named `n` (already `.png`-named).
pub open spec fn masks_key(n: Seq<u8>) -> Seq<u8> {
    masks_dir() + n
}

/// The key of a final entry named `n`.
pub open spec fn finals_key(n: Seq<u8>) -> Seq<u8> {
    finals_dir() + n
}

fn project_json_key_vec() -> (r: Vec<u8>)
    ensures
        r@ == project_json_key(),
{
    let r: Vec<u8> = vec![
        'p' as u8, 'r' as u8, 'o' as u8, 'j' as u8, 'e' as u8, 'c' as u8, 't' as u8,
        '.' as u8, 'j' as u8, 's' as u8, 'o' as u8, 'n' as u8,
    ];
    proof {
        assert(r@ =~= project_json_key());
    }
    r
}

fn originals_dir_vec() -> (r: Vec<u8>)
    ensures
        r@ == originals_dir(),
{
    let r: Vec<u8> = vec![
        'o' as u8, 'r' as u8, 'i' as u8, 'g' as u8, 'i' as u8, 'n' as u8, 'a' as u8,
        'l' as u8, 's' as u8, '/' as u8,
    ];
    proof {
        assert(r@ =~= originals_dir());
    }
    r
}

fn masks_dir_vec() -> (r: Vec<u8>)
    ensures
        r@ == masks_dir(),
{
    let r: Vec<u8> = vec!['m' as u8, 'a' as u8, 's' as u8, 'k' as u8, 's' as u8, '/' as u8];
    proof {
        assert(r@ =~= masks_dir());
    }
    r
}

fn finals_dir_vec() -> (r: Vec<u8>)
    ensures
        r@ == finals_dir(),
{
    let r: Vec<u8> = vec![
        'f' as u8, 'i' as u8, 'n' as u8, 'a' as u8, 'l' as u8, 's' as u8, '/' as u8,
    ];
    proof {
        assert(r@ =~= finals_dir());
    }
    r
}

/// `dir + name`, the exec form of the key spec functions.
fn join_key(dir: Vec<u8>, name: &Vec<u8>) -> (r: Vec<u8>)
    ensures
        r@ == dir@ + name@,
{
    let mut r = dir;
    push_all(&mut r, name);
    r
}

// ---------------------------------------------------------------------------
// The image records handed to the writer
// ---------------------------------------------------------------------------

/// One image to export: its filesystem path (or `temp://...`), its name —
/// the archive key — and its optional inline pixel and mask data, each a
/// `data:<mime>;base64,<payload>` byte string.
pub struct ImageData {
    pub path: Vec<u8>,
    pub name: Vec<u8>,
    pub data_url: Option<Vec<u8>>,
    pub mask_data_url: Option<Vec<u8>>,
}

/// The mathematical shadow of `ImageData`.
pub ghost struct ImageDataView {
    pub path: Seq<u8>,
    pub name: Seq<u8>,
    pub data_url: Option<Seq<u8>>,
    pub mask_data_url: Option<Seq<u8>>,
}

impl View for ImageData {
    type V = ImageDataView;

    open spec fn view(&self) -> ImageDataView {
        ImageDataView {
            path: self.path@,
            name: self.name@,
            data_url: opt_view(self.data_url),
            mask_data_url: opt_view(self.mask_data_url),
        }
    }
}

/// The views of a list of image records.
pub open spec fn imgs_views(s: Seq<ImageData>) -> Seq<ImageDataView> {
    s.map_values(|im: ImageData| im@)
}

// ---------------------------------------------------------------------------
// What export writes, as a sequence of planned entries
// ---------------------------------------------------------------------------

/// One planned archive entry.
pub struct PlannedEntry {
    pub key: Vec<u8>,
    pub data: Vec<u8>,
}

/// The mathematical shadow of `PlannedEntry`.
pub ghost struct EntryV {
    pub key: Seq<u8>,
    pub data: Seq<u8>,
}

impl View for PlannedEntry {
    type V = EntryV;

    open spec fn view(&self) -> EntryV {
        EntryV { key: self.key@, data: self.data@ }
    }
}

/// The views of a list of planned entries.
pub open spec fn entry_views(s: Seq<PlannedEntry>) -> Seq<EntryV> {
    s.map_values(|e: PlannedEntry| e@)
}

/// The original bytes a record resolves to: inline data for a `temp://`
/// path; otherwise the file's bytes, else the inline data as fallback.
pub open spec fn spec_resolve_original(img: ImageDataView, file: Option<Seq<u8>>) -> Option<
    Seq<u8>,
> {
    if temp_prefix().is_prefix_of(img.path) {
        match img.data_url {
            Some(u) => spec_data_url_bytes(u),
            None => None,
        }
    } else {
        match file {
            Some(b) => Some(b),
            None => match img.data_url {
                Some(u) => spec_data_url_bytes(u),
                None => None,
            },
        }
    }
}

/// What a mask inline payload becomes in the archive: its decoded image
/// normalized to the 1-bit PNG — a mask entry is always a 1-bit raster.  A
/// payload that does not decode, or whose bytes are not a readable image,
/// yields nothing: the record's mask is skipped, never written raw.
pub open spec fn spec_mask_value(mask_url: Seq<u8>) -> Option<Seq<u8>> {
    match spec_data_url_bytes(mask_url) {
        None => None,
        Some(bytes) => match gray_image_of(bytes) {
            Some(t) => Some(spec_mask_png(t.0, t.1, t.2)),
            None => None,
        },
    }
}

/// The entries one record contributes, in order: its original, then its
/// mask.  A record whose name is not a safe archive key contributes
/// nothing.
pub open spec fn record_entries(img: ImageDataView, file: Option<Seq<u8>>) -> Seq<EntryV> {
    if !valid_name(img.name) {
        Seq::empty()
    } else {
        let orig: Seq<EntryV> = match spec_resolve_original(img, file) {
            Some(b) => seq![EntryV { key: originals_key(img.name), data: b }],
            None => Seq::empty(),
        };
        let mask: Seq<EntryV> = match img.mask_data_url {
            Some(mu) => match spec_mask_value(mu) {
                Some(v) => seq![
                    EntryV { key: masks_key(spec_to_png_name(img.name)), data: v },
                ],
                None => Seq::empty(),
            },
            None => Seq::empty(),
        };
        orig + mask
    }
}

/// The entries all records contribute, in order.
pub open spec fn records_entries(
    imgs: Seq<ImageDataView>,
    files: Seq<Option<Seq<u8>>>,
) -> Seq<EntryV>
    decreases imgs.len(),
{
    if imgs.len() == 0 {
        Seq::empty()
    } else {
        records_entries(imgs.drop_last(), files.drop_last())
            + record_entries(imgs.last(), files[imgs.len() - 1])
    }
}

/// Everything export writes, in order: the pretty-printed metadata, the two
/// folder entries, then each record's entries.
pub open spec fn spec_export_entries(
    pretty: Seq<u8>,
    imgs: Seq<ImageDataView>,
    files: Seq<Option<Seq<u8>>>,
) -> Seq<EntryV> {
    seq![
        EntryV { key: project_json_key(), data: pretty },
        EntryV { key: originals_dir(), data: Seq::empty() },
        EntryV { key: masks_dir(), data: Seq::empty() },
    ] + records_entries(imgs, files)
}

// ---------------------------------------------------------------------------
// From a sequence of writes to the archive's entry map
// ---------------------------------------------------------------------------

/// Folds a sequence of writes into `m`, in order; a later write to a key
/// overwrites an earlier one.
pub open spec fn insert_all(m: Map<Seq<u8>, Seq<u8>>, s: Seq<EntryV>) -> Map<Seq<u8>, Seq<u8>>
    decreases s.len(),
{
    if s.len() == 0 {
        m
    } else {
        insert_all(m.insert(s.first().key, s.first().data), s.drop_first())
    }
}

/// The entry map a sequence of writes produces: last write wins.
pub open spec fn entries_map(s: Seq<EntryV>) -> Map<Seq<u8>, Seq<u8>> {
    insert_all(no_entries(), s)
}

/// Inserting a key that some later write overwrites changes nothing.
proof fn lemma_insert_absorbed(m: Map<Seq<u8>, Seq<u8>>, k: Seq<u8>, v: Seq<u8>, s: Seq<EntryV>)
    requires
        exists|q: int| 0 <= q < s.len() && s[q].key == k,
    ensures
        insert_all(m.insert(k, v), s) == insert_all(m, s),
    decreases s.len(),
{
    let f = s.first();
    if f.key == k {
        assert(m.insert(k, v).insert(f.key, f.data) =~= m.insert(f.key, f.data));
    } else {
        let q = choose|q: int| 0 <= q < s.len() && s[q].key == k;
        assert(s.drop_first()[q - 1].key == k);
        assert(m.insert(k, v).insert(f.key, f.data) =~= m.insert(f.key, f.data).insert(k, v));
        lemma_insert_absorbed(m.insert(f.key, f.data), k, v, s.drop_first());
    }
}

// ---------------------------------------------------------------------------
// Export
// ---------------------------------------------------------------------------

/// Whether a later write in `s` targets the same key as position `q`.
pub open spec fn has_later(s: Seq<EntryV>, q: int) -> bool {
    exists|r: int| q < r < s.len() && s[r].key == #[trigger] s[q].key
}

/// Every planned entry fits the container's promised bounds: an ASCII key
/// within the format's name field, and data under the size cap.
pub open spec fn plan_ok(s: Seq<EntryV>) -> bool {
    forall|i: int| 0 <= i < s.len() ==> key_ok((#[trigger] s[i]).key) && s[i].data.len()
        <= data_cap()
}

/// Every usable mask among the records decodes to a nonempty image; a
/// zero-dimension mask raster cannot be encoded, and fails the export.
pub open spec fn masks_ok(imgs: Seq<ImageDataView>) -> bool {
    forall|i: int| 0 <= i < imgs.len() ==> match (#[trigger] imgs[i]).mask_data_url {
        Some(mu) => match spec_data_url_bytes(mu) {
            Some(bytes) => match gray_image_of(bytes) {
                Some(t) => t.0 > 0 && t.1 > 0,
                None => true,
            },
            None => true,
        },
        None => true,
    }
}

/// True iff some entry after position `p` plans the same key as entry `p`.
fn has_later_write(planned: &Vec<PlannedEntry>, p: usize) -> (r: bool)
    requires
        p < planned@.len(),
    ensures
        r <==> exists|q: int|
            p < q < planned@.len() && planned@[q]@.key == planned@[p as int]@.key,
{
    let n = planned.len();
    let mut q: usize = p + 1;
    while q < n
        invariant
            p < planned@.len(),
            p + 1 <= q <= n == planned@.len(),
            forall|j: int| p < j < q ==> planned@[j]@.key != planned@[p as int]@.key,
        decreases n - q,
    {
        if crate::bytes::bytes_eq(&planned[q].key, &planned[p].key) {
            return true;
        }
        q += 1;
    }
    false
}

fn clone_opt_bytes(o: &Option<Vec<u8>>) -> (r: Option<Vec<u8>>)
    ensures
        r.deep_view() == o.deep_view(),
{
    match o {
        Some(v) => {
            let mut c: Vec<u8> = Vec::new();
            push_all(&mut c, v);
            assert(c@ =~= v@);
            Some(c)
        }
        None => None,
    }
}

/// Resolves a record's original bytes, as `spec_resolve_original` says.
fn resolve_original(img: &ImageData, file: &Option<Vec<u8>>) -> (r: Option<Vec<u8>>)
    ensures
        match r {
            Some(d) => spec_resolve_original(img@, opt_view(*file)) == Some(d@),
            None => spec_resolve_original(img@, opt_view(*file)) is None,
        },
{
    let temp: Vec<u8> = vec![
        't' as u8, 'e' as u8, 'm' as u8, 'p' as u8, ':' as u8, '/' as u8, '/' as u8,
    ];
    proof {
        assert(temp@ =~= temp_prefix());
    }
    if starts_with(&img.path, &temp) {
        match &img.data_url {
            Some(u) => decode_data_url(u),
            None => None,
        }
    } else {
        match file {
            Some(b) => {
                let mut c: Vec<u8> = Vec::new();
                push_all(&mut c, b);
                assert(c@ =~= b@);
                Some(c)
            }
            None => match &img.data_url {
                Some(u) => decode_data_url(u),
                None => None,
            },
        }
    }
}

/// Writes a project to a fresh in-memory archive: the pretty-printed
/// metadata at `project.json`, then per record — in order, later records
/// overwriting earlier same-named ones — its resolved original under
/// `originals/` and its normalized mask under `masks/`.  `file_bytes[i]`
/// holds the bytes read from `images[i].path`, where the caller could read
/// them.  Success is owed whenever the metadata is JSON, every usable mask
/// decodes to a nonempty image, and every planned entry fits the
/// container's bounds (`plan_ok`); the archive then also reads back
/// cleanly.  Failing any of these is the only way to fail.
pub fn export_project(
    metadata: &Vec<u8>,
    images: &Vec<ImageData>,
    file_bytes: &Vec<Option<Vec<u8>>>,
) -> (r: Result<Vec<u8>, String>)
    requires
        images@.len() == file_bytes@.len(),
    ensures
        r matches Ok(b) ==> json_pretty_of(metadata@) matches Some(p) && zip_entries_of(b@)
            == Some(entries_map(spec_export_entries(p, imgs_views(images@), opt_seq_view(file_bytes@)))),
        json_pretty_of(metadata@) is None ==> r is Err,
        (json_pretty_of(metadata@) matches Some(p) && masks_ok(imgs_views(images@)) && plan_ok(
            spec_export_entries(p, imgs_views(images@), opt_seq_view(file_bytes@)),
        )) ==> (r is Ok && (r matches Ok(b) ==> zip_clean(b@))),
{
    let pretty = match json_pretty(metadata) {
        Ok(p) => p,
        Err(e) => {
            return Err(e);
        }
    };
    let ghost gimgs = imgs_views(images@);
    let ghost gfiles = opt_seq_view(file_bytes@);
    let ghost target = spec_export_entries(pretty@, gimgs, gfiles);

    // Plan every write, in order.
    let mut planned: Vec<PlannedEntry> = Vec::new();
    let mut pd: Vec<u8> = Vec::new();
    push_all(&mut pd, &pretty);
    proof {
        assert(pd@ =~= pretty@);
    }
    planned.push(PlannedEntry { key: project_json_key_vec(), data: pd });
    planned.push(PlannedEntry { key: originals_dir_vec(), data: Vec::new() });
    planned.push(PlannedEntry { key: masks_dir_vec(), data: Vec::new() });
    proof {
        assert(entry_views(planned@) =~~= target.subrange(0, 3));
    }
    let n = images.len();
    let mut i: usize = 0;
    while i < n
        invariant
            n == images@.len() == file_bytes@.len(),
            i <= n,
            gimgs == imgs_views(images@),
            gfiles == opt_seq_view(file_bytes@),
            target == spec_export_entries(pretty@, gimgs, gfiles),
            json_pretty_of(metadata@) == Some(pretty@),
            entry_views(planned@) =~~= seq![
                EntryV { key: project_json_key(), data: pretty@ },
                EntryV { key: originals_dir(), data: Seq::empty() },
                EntryV { key: masks_dir(), data: Seq::empty() },
            ] + records_entries(gimgs.subrange(0, i as int), gfiles.subrange(0, i as int)),
        decreases n - i,
    {
        let img = &images[i];
        proof {
            assert(gimgs[i as int] == img@);
            assert(gfiles[i as int] == opt_view(file_bytes@[i as int]));
        }
        let ghost before = entry_views(planned@);
        if is_valid_name(&img.name) {
            let resolved = resolve_original(img, &file_bytes[i]);
            if let Some(b) = resolved {
                let key = join_key(originals_dir_vec(), &img.name);
                planned.push(PlannedEntry { key, data: b });
            }
            match &img.mask_data_url {
                Some(mu) => {
                    match decode_data_url(mu) {
                        Some(bytes) => {
                            match decode_gray(&bytes) {
                                Ok((w, h, px)) => {
                                    let png = match mask_png(w, h, &px) {
                                        Ok(p) => p,
                                        Err(e) => {
                                            proof {
                                                // a zero-dimension mask: the
                                                // success conditions exclude it
                                                assert(!masks_ok(gimgs)) by {
                                                    assert(gimgs[i as int].mask_data_url
                                                        == Some(mu@));
                                                }
                                            }
                                            return Err(e);
                                        }
                                    };
                                    let mask_name = to_png_name(&img.name);
                                    let key = join_key(masks_dir_vec(), &mask_name);
                                    planned.push(PlannedEntry { key, data: png });
                                }
                                Err(_) => {
                                    // not an image: the mask is skipped, as
                                    // the format keeps masks 1-bit only
                                }
                            }
                        }
                        None => {}
                    }
                }
                None => {}
            }
        }
        proof {
            assert(gimgs.subrange(0, i + 1).drop_last() =~= gimgs.subrange(0, i as int));
            assert(gfiles.subrange(0, i + 1).drop_last() =~= gfiles.subrange(0, i as int));
            assert(gimgs.subrange(0, i + 1).last() == gimgs[i as int]);
            assert(entry_views(planned@) =~~= before + record_entries(
                gimgs[i as int],
                gfiles[i as int],
            ));
        }
        i += 1;
    }
    proof {
        assert(gimgs.subrange(0, n as int) =~= gimgs);
        assert(gfiles.subrange(0, n as int) =~= gfiles);
        assert(entry_views(planned@) =~~= target);
    }

    // Write each planned entry whose key is not written again later: the
    // result is exactly the fold of all writes, last write winning.  Only
    // last writes reach the container, so no write repeats a key, and —
    // when the whole plan fits the container's bounds — none can fail.
    let mut w = ArchiveWriter::new();
    proof {
        assert(entry_views(planned@).skip(0) =~= entry_views(planned@));
    }
    let m = planned.len();
    let mut p: usize = 0;
    while p < m
        invariant
            m == planned@.len(),
            p <= m,
            entry_views(planned@) == target,
            gimgs == imgs_views(images@),
            gfiles == opt_seq_view(file_bytes@),
            target == spec_export_entries(pretty@, gimgs, gfiles),
            json_pretty_of(metadata@) == Some(pretty@),
            insert_all(writer_entries(w), entry_views(planned@).skip(p as int))
                == entries_map(target),
            plan_ok(target) ==> writer_sound(w),
            forall|k: Seq<u8>| writer_entries(w).contains_key(k) ==> exists|q: int|
                0 <= q < p && target[q].key == k && !has_later(target, q),
        decreases m - p,
    {
        let ghost rest = entry_views(planned@).skip(p as int);
        proof {
            assert(rest.first() == entry_views(planned@)[p as int]);
            assert(rest.drop_first() =~= entry_views(planned@).skip(p + 1));
        }
        if has_later_write(&planned, p) {
            proof {
                let q = choose|q: int|
                    p < q < planned@.len() && planned@[q]@.key == planned@[p as int]@.key;
                assert(entry_views(planned@).skip(p + 1)[q - p - 1].key
                    == entry_views(planned@)[p as int].key);
                lemma_insert_absorbed(
                    writer_entries(w),
                    rest.first().key,
                    rest.first().data,
                    entry_views(planned@).skip(p + 1),
                );
            }
        } else {
            proof {
                // this is the key's last write, so no earlier last write —
                // hence nothing already in the container — carries it
                assert(!has_later(target, p as int));
                assert(!writer_entries(w).contains_key(target[p as int].key)) by {
                    if writer_entries(w).contains_key(target[p as int].key) {
                        let q = choose|q: int|
                            0 <= q < p && target[q].key == target[p as int].key && !has_later(
                                target,
                                q,
                            );
                        assert(target[p as int].key == target[q].key);
                        assert(has_later(target, q));
                    }
                }
            }
            match w.add_entry(&planned[p].key, &planned[p].data) {
                Ok(_) => {
                    proof {
                        assert forall|k: Seq<u8>| writer_entries(w).contains_key(k)
                            implies exists|q: int|
                            0 <= q < p + 1 && target[q].key == k && !has_later(target, q) by {
                            if k != target[p as int].key {
                                assert(writer_entries(w) == writer_entries(w).insert(
                                    target[p as int].key,
                                    target[p as int].data,
                                ));
                            } else {
                                assert(0 <= p < p + 1 && target[p as int].key == k
                                    && !has_later(target, p as int));
                            }
                        }
                    }
                }
                Err(e) => {
                    proof {
                        // under a fitting plan the write was promised to
                        // succeed, so the plan does not fit
                        if plan_ok(target) {
                            assert(key_ok(target[p as int].key));
                            assert(target[p as int].data.len() <= data_cap());
                            assert(false);
                        }
                    }
                    return Err(e);
                }
            }
        }
        p += 1;
    }
    proof {
        assert(entry_views(planned@).skip(m as int) =~= Seq::<EntryV>::empty());
    }
    match w.finish() {
        Ok(b) => Ok(b),
        Err(e) => {
            proof {
                if plan_ok(target) {
                    assert(false);
                }
            }
            Err(e)
        }
    }
}

// ---------------------------------------------------------------------------
// Import
// ---------------------------------------------------------------------------

/// One image as import reconstructed it: inline data and a synthesized
/// `imported/` path for its original, and — always set, absence explicit —
/// its mask and final data.
pub struct ImportedImage {
    pub name: Vec<u8>,
    pub data_url: Option<Vec<u8>>,
    pub path: Option<Vec<u8>>,
    pub mask_data_url: Option<Vec<u8>>,
    pub final_data_url: Option<Vec<u8>>,
}

/// The mathematical shadow of `ImportedImage`.
pub ghost struct ImportedImageView {
    pub name: Seq<u8>,
    pub data_url: Option<Seq<u8>>,
    pub path: Option<Seq<u8>>,
    pub mask_data_url: Option<Seq<u8>>,
    pub final_data_url: Option<Seq<u8>>,
}

impl View for ImportedImage {
    type V = ImportedImageView;

    open spec fn view(&self) -> ImportedImageView {
        ImportedImageView {
            name: self.name@,
            data_url: opt_view(self.data_url),
            path: opt_view(self.path),
            mask_data_url: opt_view(self.mask_data_url),
            final_data_url: opt_view(self.final_data_url),
        }
    }
}

/// A project read back from an archive: the metadata document, and one
/// reconstructed image per element of its `images` array (`None` where the
/// element has no name and is left untouched).
pub struct ImportedProject {
    pub metadata: Vec<u8>,
    pub images: Vec<Option<ImportedImage>>,
}

/// The view of one slot of the imported image list.
pub open spec fn imported_opt_view(o: Option<ImportedImage>) -> Option<ImportedImageView> {
    match o {
        Some(ii) => Some(ii@),
        None => None,
    }
}

/// The entry a two-key probe picks: the first candidate, else the second.
pub open spec fn spec_probe_result(
    em: Map<Seq<u8>, Seq<u8>>,
    k1: Seq<u8>,
    k2: Seq<u8>,
) -> Option<Seq<u8>> {
    if em.contains_key(k1) {
        Some(em[k1])
    } else if em.contains_key(k2) {
        Some(em[k2])
    } else {
        None
    }
}

/// The PNG data URL a probed mask or final entry becomes.
pub open spec fn spec_probe_png(
    em: Map<Seq<u8>, Seq<u8>>,
    k1: Seq<u8>,
    k2: Seq<u8>,
) -> Option<Seq<u8>> {
    match spec_probe_result(em, k1, k2) {
        Some(b) => if encodable(b) {
            Some(spec_data_url(Mime::Png, b))
        } else {
            None
        },
        None => None,
    }
}

/// The data URL of an image's original, content-typed by its extension.
pub open spec fn spec_import_original(em: Map<Seq<u8>, Seq<u8>>, nm: Seq<u8>) -> Option<
    Seq<u8>,
> {
    if em.contains_key(originals_key(nm)) && encodable(em[originals_key(nm)]) {
        Some(spec_data_url(spec_mime_of(nm), em[originals_key(nm)]))
    } else {
        None
    }
}

/// Everything import reconstructs for the image named `nm`, from the entry
/// map `em`: mask and final fields are `None` exactly when neither
/// candidate entry can serve them — absence is stated, never omitted.
pub open spec fn spec_imported_image(em: Map<Seq<u8>, Seq<u8>>, nm: Seq<u8>) -> ImportedImageView {
    ImportedImageView {
        name: nm,
        data_url: spec_import_original(em, nm),
        path: if spec_import_original(em, nm) is Some {
            Some(imported_dir() + nm)
        } else {
            None
        },
        mask_data_url: spec_probe_png(em, masks_key(spec_to_png_name(nm)), masks_key(nm)),
        final_data_url: spec_probe_png(em, finals_key(spec_to_png_name(nm)), finals_key(nm)),
    }
}

/// What import makes of one element of the metadata's image list.
pub open spec fn spec_imported_slot(
    em: Map<Seq<u8>, Seq<u8>>,
    n: Option<Seq<u8>>,
) -> Option<ImportedImageView> {
    match n {
        Some(nm) => Some(spec_imported_image(em, nm)),
        None => None,
    }
}

/// The reconstructed data URLs of the image named `nm` decode back to the
/// very entry bytes they were made from.
pub open spec fn spec_urls_decode(em: Map<Seq<u8>, Seq<u8>>, nm: Seq<u8>) -> bool {
    &&& (spec_import_original(em, nm) matches Some(u) ==> spec_data_url_bytes(u)
        == Some(em[originals_key(nm)]))
    &&& (spec_imported_image(em, nm).mask_data_url matches Some(u) ==> spec_data_url_bytes(u)
        == spec_probe_result(em, masks_key(spec_to_png_name(nm)), masks_key(nm)))
    &&& (spec_imported_image(em, nm).final_data_url matches Some(u) ==> spec_data_url_bytes(u)
        == spec_probe_result(em, finals_key(spec_to_png_name(nm)), finals_key(nm)))
}

/// A name the import is promised to handle: nonempty ASCII, short enough
/// that every probe key derived from it fits the container's name field.
pub open spec fn ascii_name(nm: Seq<u8>) -> bool {
    &&& 1 <= nm.len() <= 60000
    &&& forall|j: int| 0 <= j < nm.len() ==> 0 < #[trigger] nm[j] < 128
}

/// Every named element of the metadata's image list bears such a name.
pub open spec fn names_ok(ns: Seq<Option<Seq<u8>>>) -> bool {
    forall|i: int| 0 <= i < ns.len() ==> match #[trigger] ns[i] {
        Some(nm) => ascii_name(nm),
        None => true,
    }
}

/// Every probe key of an ASCII name is a key the container takes.
proof fn lemma_ascii_keys(nm: Seq<u8>)
    requires
        ascii_name(nm),
    ensures
        key_ok(originals_key(nm)),
        key_ok(masks_key(spec_to_png_name(nm))),
        key_ok(masks_key(nm)),
        key_ok(finals_key(spec_to_png_name(nm))),
        key_ok(finals_key(nm)),
{
    let pn = spec_to_png_name(nm);
    assert(forall|j: int| 0 <= j < originals_dir().len() ==> 0 < #[trigger] originals_dir()[j]
        < 128);
    assert(forall|j: int| 0 <= j < masks_dir().len() ==> 0 < #[trigger] masks_dir()[j] < 128);
    assert(forall|j: int| 0 <= j < finals_dir().len() ==> 0 < #[trigger] finals_dir()[j] < 128);
    assert(forall|j: int| 0 <= j < png_suffix().len() ==> 0 < #[trigger] png_suffix()[j] < 128);
    assert(1 <= pn.len() <= nm.len() + 4 && forall|j: int| 0 <= j < pn.len() ==> 0
        < #[trigger] pn[j] < 128) by {
        crate::names::lemma_last_dot_in_range(nm);
        match crate::names::last_dot(nm) {
            Some(i) => {
                assert(pn == nm.subrange(0, i) + png_suffix());
            }
            None => {
                assert(pn == nm + png_suffix());
            }
        }
    }
    assert(key_ok(originals_key(nm))) by {
        assert(forall|j: int| 0 <= j < originals_key(nm).len() ==> 0
            < #[trigger] originals_key(nm)[j] < 128);
    }
    assert(key_ok(masks_key(pn))) by {
        assert(forall|j: int| 0 <= j < masks_key(pn).len() ==> 0 < #[trigger] masks_key(pn)[j]
            < 128);
    }
    assert(key_ok(masks_key(nm))) by {
        assert(forall|j: int| 0 <= j < masks_key(nm).len() ==> 0 < #[trigger] masks_key(nm)[j]
            < 128);
    }
    assert(key_ok(finals_key(pn))) by {
        assert(forall|j: int| 0 <= j < finals_key(pn).len() ==> 0 < #[trigger] finals_key(pn)[j]
            < 128);
    }
    assert(key_ok(finals_key(nm))) by {
        assert(forall|j: int| 0 <= j < finals_key(nm).len() ==> 0 < #[trigger] finals_key(nm)[j]
            < 128);
    }
}

/// Reads the first present of two candidate entries and wraps it as a PNG
/// data URL.
fn probe_png_url(a: &mut Archive, k1: &Vec<u8>, k2: &Vec<u8>) -> (r: Result<
    Option<Vec<u8>>,
    String,
>)
    ensures
        archive_entries(*final(a)) == archive_entries(*old(a)),
        archive_clean(*final(a)) == archive_clean(*old(a)),
        r matches Ok(o) ==> ({
            let em = archive_entries(*old(a));
            match o {
                Some(u) => spec_probe_png(em, k1@, k2@) == Some(u@) && spec_data_url_bytes(u@)
                    == spec_probe_result(em, k1@, k2@),
                None => spec_probe_png(em, k1@, k2@) is None,
            }
        }),
        (archive_clean(*old(a)) && key_ok(k1@) && key_ok(k2@)) ==> r is Ok,
{
    let d = match a.read_entry(k1) {
        Err(e) => {
            return Err(e);
        }
        Ok(Some(d)) => Some(d),
        Ok(None) => match a.read_entry(k2) {
            Err(e) => {
                return Err(e);
            }
            Ok(o) => o,
        },
    };
    match d {
        None => Ok(None),
        Some(b) => match make_data_url(Mime::Png, &b) {
            Some(u) => Ok(Some(u)),
            None => Ok(None),
        },
    }
}

/// Reads a project back from the bytes of an archive: the metadata document
/// at `project.json` — its absence or malformedness is fatal — and, for
/// each named element of the metadata's image list, the image's original as
/// an inline data URL with a synthesized `imported/` path, plus its mask
/// and final entries, probed first under the `.png` name and then under the
/// name itself, each explicitly `None` when neither candidate exists.
/// Success is owed on every clean archive whose metadata holds
/// `project.json` with a parsable image list of ASCII names (`names_ok`);
/// in particular on anything `export_project` promised.
pub fn import_project(bytes: Vec<u8>) -> (r: Result<ImportedProject, String>)
    ensures
        r matches Ok(p) ==> ({
            &&& zip_entries_of(bytes@) matches Some(em)
            &&& zip_entries_of(bytes@) matches Some(em) ==> {
                &&& em.contains_key(project_json_key())
                &&& p.metadata@ == em[project_json_key()]
                &&& image_names_of(em[project_json_key()]) matches Some(ns)
                &&& image_names_of(em[project_json_key()]) matches Some(ns) ==> {
                    &&& p.images@.len() == ns.len()
                    &&& forall|i: int| 0 <= i < ns.len()
                        ==> imported_opt_view(p.images@[i]) == spec_imported_slot(em, ns[i])
                    &&& forall|i: int| 0 <= i < ns.len() ==> match #[trigger] ns[i] {
                        Some(nm) => spec_urls_decode(em, nm),
                        None => true,
                    }
                }
            }
        }),
        zip_entries_of(bytes@) is None ==> r is Err,
        zip_entries_of(bytes@) matches Some(em) && !em.contains_key(project_json_key())
            ==> r is Err,
        zip_entries_of(bytes@) matches Some(em) && em.contains_key(project_json_key())
            && image_names_of(em[project_json_key()]) is None ==> r is Err,
        zip_entries_of(bytes@) matches Some(em) ==> (zip_clean(bytes@) && em.contains_key(
            project_json_key(),
        ) ==> (image_names_of(em[project_json_key()]) matches Some(ns) ==> (names_ok(ns)
            ==> r is Ok))),
{
    let ghost gbytes = bytes@;
    let mut a = match Archive::open(bytes) {
        Ok(a) => a,
        Err(e) => {
            return Err(e);
        }
    };
    let ghost em = archive_entries(a);
    let pj = project_json_key_vec();
    proof {
        assert(key_ok(project_json_key())) by {
            assert(forall|j: int| 0 <= j < project_json_key().len() ==> 0
                < #[trigger] project_json_key()[j] < 128);
        }
    }
    let meta = match a.read_entry(&pj) {
        Err(e) => {
            proof {
                // a clean archive reads any ASCII key without error
                if zip_clean(gbytes) {
                    assert(false);
                }
            }
            return Err(e);
        }
        Ok(None) => {
            return Err("project.json is missing from the archive".to_owned());
        }
        Ok(Some(m)) => m,
    };
    let names = match json_image_names(&meta) {
        Err(e) => {
            return Err(e);
        }
        Ok(ns) => ns,
    };
    let ghost gns = opt_seq_view(names@);
    let n = names.len();
    let mut images: Vec<Option<ImportedImage>> = Vec::new();
    let mut i: usize = 0;
    while i < n
        invariant
            n == names@.len(),
            i <= n,
            gbytes == bytes@,
            zip_entries_of(gbytes) == Some(em),
            em == archive_entries(a),
            zip_clean(gbytes) ==> archive_clean(a),
            em.contains_key(project_json_key()),
            image_names_of(em[project_json_key()]) == Some(gns),
            gns == opt_seq_view(names@),
            images@.len() == i,
            forall|j: int| 0 <= j < i
                ==> imported_opt_view(images@[j]) == spec_imported_slot(em, gns[j]),
            forall|j: int| 0 <= j < i ==> match #[trigger] gns[j] {
                Some(nm) => spec_urls_decode(em, nm),
                None => true,
            },
        decreases n - i,
    {
        proof {
            assert(gns[i as int] == opt_view(names@[i as int]));
        }
        match &names[i] {
            None => {
                images.push(None);
            }
            Some(nm) => {
                let ghost snm = nm@;
                proof {
                    // under the success conditions this name is ASCII, and
                    // every key probed below is one the container takes
                    if names_ok(gns) {
                        lemma_ascii_keys(snm);
                    }
                }
                // original
                let ok = join_key(originals_dir_vec(), nm);
                let (data_url, path): (Option<Vec<u8>>, Option<Vec<u8>>) = match a.read_entry(
                    &ok,
                ) {
                    Err(e) => {
                        proof {
                            if zip_clean(gbytes) && names_ok(gns) {
                                assert(false);
                            }
                        }
                        return Err(e);
                    }
                    Ok(None) => (None, None),
                    Ok(Some(d)) => match make_data_url(mime_for_name(nm), &d) {
                        Some(u) => {
                            let imported: Vec<u8> = vec![
                                'i' as u8, 'm' as u8, 'p' as u8, 'o' as u8, 'r' as u8,
                                't' as u8, 'e' as u8, 'd' as u8, '/' as u8,
                            ];
                            proof {
                                assert(imported@ =~= imported_dir());
                            }
                            let pth = join_key(imported, nm);
                            (Some(u), Some(pth))
                        }
                        None => (None, None),
                    },
                };
                // mask, then final: the `.png` name first, the name itself second
                let png_name = to_png_name(nm);
                let mk1 = join_key(masks_dir_vec(), &png_name);
                let mk2 = join_key(masks_dir_vec(), nm);
                let mask_data_url = match probe_png_url(&mut a, &mk1, &mk2) {
                    Ok(o) => o,
                    Err(e) => {
                        proof {
                            if zip_clean(gbytes) && names_ok(gns) {
                                assert(false);
                            }
                        }
                        return Err(e);
                    }
                };
                let fk1 = join_key(finals_dir_vec(), &png_name);
                let fk2 = join_key(finals_dir_vec(), nm);
                let final_data_url = match probe_png_url(&mut a, &fk1, &fk2) {
                    Ok(o) => o,
                    Err(e) => {
                        proof {
                            if zip_clean(gbytes) && names_ok(gns) {
                                assert(false);
                            }
                        }
                        return Err(e);
                    }
                };
                let ii = ImportedImage {
                    name: clone_bytes(nm),
                    data_url,
                    path,
                    mask_data_url,
                    final_data_url,
                };
                proof {
                    assert(ii@ == spec_imported_image(em, snm));
                }
                images.push(Some(ii));
            }
        }
        i += 1;
    }
    Ok(ImportedProject { metadata: meta, images })
}

// ---------------------------------------------------------------------------
// What the exported map holds: last write wins
// ---------------------------------------------------------------------------

/// The value of the last write to `k` in `s`, if any.
pub open spec fn last_write(s: Seq<EntryV>, k: Seq<u8>) -> Option<Seq<u8>>
    decreases s.len(),
{
    if s.len() == 0 {
        None
    } else if s.last().key == k {
        Some(s.last().data)
    } else {
        last_write(s.drop_last(), k)
    }
}

/// `last_write` seen from the front.
proof fn lemma_last_write_front(s: Seq<EntryV>, k: Seq<u8>)
    requires
        s.len() > 0,
    ensures
        last_write(s, k) == match last_write(s.drop_first(), k) {
            Some(v) => Some(v),
            None => if s.first().key == k {
                Some(s.first().data)
            } else {
                None::<Seq<u8>>
            },
        },
    decreases s.len(),
{
    if s.len() == 1 {
        assert(s.drop_first().len() == 0);
        assert(s.last() == s.first());
    } else {
        let rest = s.drop_first();
        assert(rest.last() == s.last());
        if s.last().key != k {
            assert(rest.drop_last() =~= s.drop_last().drop_first());
            assert(s.drop_last().len() > 0);
            assert(s.drop_last().first() == s.first());
            lemma_last_write_front(s.drop_last(), k);
        }
    }
}

/// A write recorded by `last_write` sits at some position.
proof fn lemma_last_write_witness(s: Seq<EntryV>, k: Seq<u8>)
    requires
        last_write(s, k) is Some,
    ensures
        exists|q: int| 0 <= q < s.len() && s[q].key == k,
    decreases s.len(),
{
    if s.last().key == k {
        assert(s[s.len() - 1].key == k);
    } else {
        lemma_last_write_witness(s.drop_last(), k);
        let q = choose|q: int| 0 <= q < s.drop_last().len() && s.drop_last()[q].key == k;
        assert(s[q].key == k);
    }
}

/// Folding writes over `m` looks up as the last write, else as `m`.
proof fn lemma_insert_all_lookup(m: Map<Seq<u8>, Seq<u8>>, s: Seq<EntryV>, k: Seq<u8>)
    ensures
        insert_all(m, s).contains_key(k) <==> (m.contains_key(k) || last_write(s, k) is Some),
        last_write(s, k) matches Some(v) ==> insert_all(m, s)[k] == v,
        last_write(s, k) is None && m.contains_key(k) ==> insert_all(m, s)[k] == m[k],
    decreases s.len(),
{
    if s.len() > 0 {
        let f = s.first();
        lemma_last_write_front(s, k);
        lemma_insert_all_lookup(m.insert(f.key, f.data), s.drop_first(), k);
    }
}

/// `last_write` over a concatenation: the second part speaks first.
proof fn lemma_last_write_concat(s1: Seq<EntryV>, s2: Seq<EntryV>, k: Seq<u8>)
    ensures
        last_write(s1 + s2, k) == match last_write(s2, k) {
            Some(v) => Some(v),
            None => last_write(s1, k),
        },
    decreases s2.len(),
{
    if s2.len() == 0 {
        assert(s1 + s2 =~= s1);
    } else {
        assert((s1 + s2).last() == s2.last());
        if s2.last().key != k {
            assert((s1 + s2).drop_last() =~= s1 + s2.drop_last());
            lemma_last_write_concat(s1, s2.drop_last(), k);
        }
    }
}

// ---------------------------------------------------------------------------
// The keys of the fixed layout do not collide
// ---------------------------------------------------------------------------

/// Appending to a fixed prefix is injective.
proof fn lemma_key_inj(d: Seq<u8>, n1: Seq<u8>, n2: Seq<u8>)
    requires
        d + n1 == d + n2,
    ensures
        n1 == n2,
{
    assert(n1 =~= (d + n1).subrange(d.len() as int, (d + n1).len() as int));
    assert(n2 =~= (d + n2).subrange(d.len() as int, (d + n2).len() as int));
}

/// The `originals/` and `masks/` families, the two folder entries and
/// `project.json` are pairwise distinct keys.
proof fn lemma_key_families(n: Seq<u8>, m: Seq<u8>)
    requires
        n.len() > 0,
        m.len() > 0,
    ensures
        originals_key(n) != masks_key(m),
        originals_key(n) != project_json_key(),
        originals_key(n) != originals_dir(),
        originals_key(n) != masks_dir(),
        masks_key(m) != project_json_key(),
        masks_key(m) != originals_dir(),
        masks_key(m) != masks_dir(),
{
    assert(originals_key(n)[0] == 'o' as u8);
    assert(masks_key(m)[0] == 'm' as u8);
    assert(project_json_key()[0] == 'p' as u8);
    assert(originals_key(n).len() == originals_dir().len() + n.len());
    assert(masks_key(m).len() == masks_dir().len() + m.len());
    assert(originals_dir()[0] == 'o' as u8);
    assert(masks_dir()[0] == 'm' as u8);
}

/// Whether some record of `imgs` could have written key `k`.
pub open spec fn is_record_key(imgs: Seq<ImageDataView>, k: Seq<u8>) -> bool {
    exists|q: int| 0 <= q < imgs.len() && (k == originals_key(imgs[q].name) || k
        == masks_key(spec_to_png_name(imgs[q].name)))
}

/// Every entry a record plans carries that record's original or mask key.
proof fn lemma_record_keys(img: ImageDataView, f: Option<Seq<u8>>, p: int)
    requires
        0 <= p < record_entries(img, f).len(),
    ensures
        record_entries(img, f)[p].key == originals_key(img.name) || record_entries(img, f)[p].key
            == masks_key(spec_to_png_name(img.name)),
{
}

/// Every key in the records' plan belongs to some record.
proof fn lemma_records_keys(imgs: Seq<ImageDataView>, files: Seq<Option<Seq<u8>>>, p: int)
    requires
        imgs.len() == files.len(),
        0 <= p < records_entries(imgs, files).len(),
    ensures
        is_record_key(imgs, records_entries(imgs, files)[p].key),
    decreases imgs.len(),
{
    let pre = records_entries(imgs.drop_last(), files.drop_last());
    if p < pre.len() {
        lemma_records_keys(imgs.drop_last(), files.drop_last(), p);
        let q = choose|q: int|
            0 <= q < imgs.drop_last().len() && (pre[p].key
                == originals_key(imgs.drop_last()[q].name) || pre[p].key
                == masks_key(spec_to_png_name(imgs.drop_last()[q].name)));
        assert(imgs[q] == imgs.drop_last()[q]);
        assert(records_entries(imgs, files)[p] == pre[p]);
    } else {
        let last = record_entries(imgs.last(), files[imgs.len() - 1]);
        lemma_record_keys(imgs.last(), files[imgs.len() - 1], p - pre.len());
        assert(records_entries(imgs, files)[p] == last[p - pre.len()]);
        assert(imgs[imgs.len() - 1] == imgs.last());
    }
}

/// What the records' plan last writes to record `i`'s original key, when
/// the record resolves and no later record shares its name.
proof fn lemma_records_orig_lookup(
    imgs: Seq<ImageDataView>,
    files: Seq<Option<Seq<u8>>>,
    i: int,
)
    requires
        imgs.len() == files.len(),
        0 <= i < imgs.len(),
        valid_name(imgs[i].name),
        spec_resolve_original(imgs[i], files[i]) is Some,
        forall|q: int| i < q < imgs.len() ==> imgs[q].name != imgs[i].name,
    ensures
        last_write(records_entries(imgs, files), originals_key(imgs[i].name))
            == spec_resolve_original(imgs[i], files[i]),
    decreases imgs.len(),
{
    let nm = imgs[i].name;
    let k = originals_key(nm);
    let pre = records_entries(imgs.drop_last(), files.drop_last());
    let last_img = imgs.last();
    let last_rec = record_entries(last_img, files[imgs.len() - 1]);
    lemma_last_write_concat(pre, last_rec, k);
    assert(last_img == imgs[imgs.len() - 1]);
    if i == imgs.len() - 1 {
        let b = spec_resolve_original(imgs[i], files[i])->Some_0;
        let oseq = seq![EntryV { key: k, data: b }];
        let mseq: Seq<EntryV> = match imgs[i].mask_data_url {
            Some(mu) => match spec_mask_value(mu) {
                Some(v) => seq![EntryV { key: masks_key(spec_to_png_name(nm)), data: v }],
                None => Seq::empty(),
            },
            None => Seq::empty(),
        };
        assert(last_rec =~= oseq + mseq);
        lemma_last_write_concat(oseq, mseq, k);
        assert(spec_to_png_name(nm).len() >= 4);
        lemma_key_families(nm, spec_to_png_name(nm));
        assert(forall|p: int| 0 <= p < mseq.len() ==> mseq[p].key != k);
        lemma_no_key_no_write(mseq, k);
        assert(last_write(oseq, k) == Some(b));
    } else {
        let ln = last_img.name;
        assert(forall|p: int| 0 <= p < last_rec.len() ==> last_rec[p].key != k) by {
            assert forall|p: int| 0 <= p < last_rec.len() implies last_rec[p].key != k by {
                lemma_record_keys(last_img, files[imgs.len() - 1], p);
                if last_rec[p].key == originals_key(ln) && originals_key(ln) == k {
                    lemma_key_inj(originals_dir(), ln, nm);
                }
                if last_rec[p].key == masks_key(spec_to_png_name(ln)) {
                    lemma_key_families(nm, spec_to_png_name(ln));
                }
            }
        }
        lemma_no_key_no_write(last_rec, k);
        assert(imgs.drop_last()[i] == imgs[i]);
        lemma_records_orig_lookup(imgs.drop_last(), files.drop_last(), i);
    }
}

/// A sequence of writes none of which touches `k` leaves no last write.
proof fn lemma_no_key_no_write(s: Seq<EntryV>, k: Seq<u8>)
    requires
        forall|p: int| 0 <= p < s.len() ==> s[p].key != k,
    ensures
        last_write(s, k) is None,
    decreases s.len(),
{
    if s.len() > 0 {
        assert(s[s.len() - 1].key != k);
        lemma_no_key_no_write(s.drop_last(), k);
    }
}

/// A key no record of `imgs` owns is never written by the records' plan.
proof fn lemma_records_none(imgs: Seq<ImageDataView>, files: Seq<Option<Seq<u8>>>, k: Seq<u8>)
    requires
        imgs.len() == files.len(),
        forall|q: int| 0 <= q < imgs.len() ==> k != originals_key(imgs[q].name) && k
            != masks_key(spec_to_png_name(imgs[q].name)),
    ensures
        last_write(records_entries(imgs, files), k) is None,
{
    if last_write(records_entries(imgs, files), k) is Some {
        lemma_last_write_witness(records_entries(imgs, files), k);
        let p = choose|p: int|
            0 <= p < records_entries(imgs, files).len() && records_entries(imgs, files)[p].key
                == k;
        lemma_records_keys(imgs, files, p);
    }
}

/// What the records' plan last writes to record `i`'s mask key, when no
/// other record shares its mask name.
proof fn lemma_records_mask_lookup(
    imgs: Seq<ImageDataView>,
    files: Seq<Option<Seq<u8>>>,
    i: int,
)
    requires
        imgs.len() == files.len(),
        0 <= i < imgs.len(),
        valid_name(imgs[i].name),
        forall|q: int| 0 <= q < imgs.len() && q != i ==> spec_to_png_name(imgs[q].name)
            != spec_to_png_name(imgs[i].name),
    ensures
        last_write(records_entries(imgs, files), masks_key(spec_to_png_name(imgs[i].name)))
            == match imgs[i].mask_data_url {
                Some(mu) => spec_mask_value(mu),
                None => None::<Seq<u8>>,
            },
    decreases imgs.len(),
{
    let nm = imgs[i].name;
    let k = masks_key(spec_to_png_name(nm));
    let pre = records_entries(imgs.drop_last(), files.drop_last());
    let last_img = imgs.last();
    let last_rec = record_entries(last_img, files[imgs.len() - 1]);
    lemma_last_write_concat(pre, last_rec, k);
    assert(last_img == imgs[imgs.len() - 1]);
    if i == imgs.len() - 1 {
        let oseq: Seq<EntryV> = match spec_resolve_original(imgs[i], files[i]) {
            Some(b) => seq![EntryV { key: originals_key(nm), data: b }],
            None => Seq::empty(),
        };
        assert(spec_to_png_name(nm).len() >= 4);
        lemma_key_families(nm, spec_to_png_name(nm));
        match imgs[i].mask_data_url {
            Some(mu) => {
                match spec_mask_value(mu) {
                    Some(v) => {
                        let mseq = seq![EntryV { key: k, data: v }];
                        assert(last_rec =~= oseq + mseq);
                        lemma_last_write_concat(oseq, mseq, k);
                        assert(last_write(mseq, k) == Some(v));
                    }
                    None => {
                        assert(last_rec =~= oseq);
                        lemma_no_key_no_write(oseq, k);
                        lemma_mask_key_unowned(imgs.drop_last(), files.drop_last(), i, nm, k);
                    }
                }
            }
            None => {
                assert(last_rec =~= oseq);
                lemma_no_key_no_write(oseq, k);
                lemma_mask_key_unowned(imgs.drop_last(), files.drop_last(), i, nm, k);
            }
        }
    } else {
        let ln = last_img.name;
        assert(forall|p: int| 0 <= p < last_rec.len() ==> last_rec[p].key != k) by {
            assert forall|p: int| 0 <= p < last_rec.len() implies last_rec[p].key != k by {
                lemma_record_keys(last_img, files[imgs.len() - 1], p);
                if last_rec[p].key == originals_key(ln) && originals_key(ln) == k {
                    lemma_key_families(ln, spec_to_png_name(nm));
                }
                if last_rec[p].key == masks_key(spec_to_png_name(ln)) && masks_key(
                    spec_to_png_name(ln),
                ) == k {
                    lemma_key_inj(masks_dir(), spec_to_png_name(ln), spec_to_png_name(nm));
                }
            }
        }
        lemma_no_key_no_write(last_rec, k);
        assert(imgs.drop_last()[i] == imgs[i]);
        lemma_records_mask_lookup(imgs.drop_last(), files.drop_last(), i);
    }
}

/// Helper: records other than `i` (here, a prefix not containing `i`) never
/// write `i`'s mask key.
proof fn lemma_mask_key_unowned(
    imgs: Seq<ImageDataView>,
    files: Seq<Option<Seq<u8>>>,
    i: int,
    nm: Seq<u8>,
    k: Seq<u8>,
)
    requires
        imgs.len() == files.len(),
        nm.len() > 0,
        k == masks_key(spec_to_png_name(nm)),
        forall|q: int| 0 <= q < imgs.len() ==> spec_to_png_name(imgs[q].name)
            != spec_to_png_name(nm),
    ensures
        last_write(records_entries(imgs, files), k) is None,
{
    assert forall|q: int| 0 <= q < imgs.len() implies k != originals_key(imgs[q].name) && k
        != masks_key(spec_to_png_name(imgs[q].name)) by {
        assert(originals_key(imgs[q].name)[0] == 'o' as u8);
        assert(k[0] == 'm' as u8);
        if k == masks_key(spec_to_png_name(imgs[q].name)) {
            lemma_key_inj(masks_dir(), spec_to_png_name(imgs[q].name), spec_to_png_name(nm));
        }
    }
    lemma_records_none(imgs, files, k);
}

/// The archive's base entries under a record key: none.
proof fn lemma_export_lookup(
    pretty: Seq<u8>,
    imgs: Seq<ImageDataView>,
    files: Seq<Option<Seq<u8>>>,
    k: Seq<u8>,
)
    requires
        imgs.len() == files.len(),
    ensures
        ({
            let em = entries_map(spec_export_entries(pretty, imgs, files));
            let recs = records_entries(imgs, files);
            &&& (last_write(recs, k) matches Some(v) ==> em.contains_key(k) && em[k] == v)
            &&& (last_write(recs, k) is None && k != project_json_key() && k != originals_dir()
                && k != masks_dir() ==> !em.contains_key(k))
        }),
{
    let base = seq![
        EntryV { key: project_json_key(), data: pretty },
        EntryV { key: originals_dir(), data: Seq::empty() },
        EntryV { key: masks_dir(), data: Seq::empty() },
    ];
    let recs = records_entries(imgs, files);
    assert(spec_export_entries(pretty, imgs, files) == base + recs);
    lemma_last_write_concat(base, recs, k);
    lemma_insert_all_lookup(no_entries(), base + recs, k);
    if last_write(recs, k) is None && k != project_json_key() && k != originals_dir() && k
        != masks_dir() {
        assert(base[0].key == project_json_key());
        assert(base[1].key == originals_dir());
        assert(base[2].key == masks_dir());
        assert(forall|p: int| 0 <= p < base.len() ==> base[p].key != k);
        lemma_no_key_no_write(base, k);
    }
}

// ---------------------------------------------------------------------------
// The laws of the codec
// ---------------------------------------------------------------------------

/// Name collision, last write wins: when two records share a name, the
/// archive's original entry for that name holds the later record's bytes.
pub proof fn lemma_name_collision_last_wins(
    pretty: Seq<u8>,
    imgs: Seq<ImageDataView>,
    files: Seq<Option<Seq<u8>>>,
    i: int,
    j: int,
)
    requires
        imgs.len() == files.len(),
        0 <= i < j < imgs.len(),
        imgs[i].name == imgs[j].name,
        valid_name(imgs[j].name),
        spec_resolve_original(imgs[j], files[j]) is Some,
        forall|q: int| j < q < imgs.len() ==> imgs[q].name != imgs[j].name,
    ensures
        ({
            let em = entries_map(spec_export_entries(pretty, imgs, files));
            &&& em.contains_key(originals_key(imgs[j].name))
            &&& Some(em[originals_key(imgs[j].name)]) == spec_resolve_original(
                imgs[j],
                files[j],
            )
        }),
{
    lemma_records_orig_lookup(imgs, files, j);
    lemma_export_lookup(pretty, imgs, files, originals_key(imgs[j].name));
}

/// A `.png`-renamed name ends in `.png`.
proof fn lemma_png_name_suffix(n: Seq<u8>)
    ensures
        png_suffix().is_suffix_of(spec_to_png_name(n)),
{
    crate::names::lemma_last_dot_in_range(n);
    match crate::names::last_dot(n) {
        Some(i) => {
            assert(spec_to_png_name(n) == n.subrange(0, i) + png_suffix());
            assert(png_suffix() =~= (n.subrange(0, i) + png_suffix()).subrange(
                i,
                (n.subrange(0, i) + png_suffix()).len() as int,
            ));
        }
        None => {
            assert(spec_to_png_name(n) == n + png_suffix());
            assert(png_suffix() =~= (n + png_suffix()).subrange(
                n.len() as int,
                (n + png_suffix()).len() as int,
            ));
        }
    }
}

/// Renaming a name that already ends in `.png` changes nothing.
proof fn lemma_png_name_fixed(n: Seq<u8>)
    requires
        png_suffix().is_suffix_of(n),
    ensures
        spec_to_png_name(n) == n,
{
    let l = n.len() as int;
    assert(n[l - 1] == 'g' as u8 && n[l - 2] == 'n' as u8 && n[l - 3] == 'p' as u8 && n[l - 4]
        == '.' as u8) by {
        assert(png_suffix() =~= n.subrange(l - 4, l));
        assert(n[l - 4] == n.subrange(l - 4, l)[0]);
        assert(n[l - 3] == n.subrange(l - 4, l)[1]);
        assert(n[l - 2] == n.subrange(l - 4, l)[2]);
        assert(n[l - 1] == n.subrange(l - 4, l)[3]);
    }
    assert(n.drop_last() =~= n.subrange(0, l - 1));
    assert(n.drop_last().drop_last() =~= n.subrange(0, l - 2));
    assert(n.drop_last().drop_last().drop_last() =~= n.subrange(0, l - 3));
    assert(crate::names::last_dot(n) == Some(l - 4)) by {
        let n1 = n.drop_last();
        let n2 = n1.drop_last();
        let n3 = n2.drop_last();
        assert(n[n.len() - 1] == 'g' as u8);
        assert(crate::names::last_dot(n) == crate::names::last_dot(n1));
        assert(n1[n1.len() - 1] == 'n' as u8);
        assert(crate::names::last_dot(n1) == crate::names::last_dot(n2));
        assert(n2[n2.len() - 1] == 'p' as u8);
        assert(crate::names::last_dot(n2) == crate::names::last_dot(n3));
        assert(n3[n3.len() - 1] == '.' as u8);
        assert(crate::names::last_dot(n3) == Some(n3.len() - 1));
        assert(n3.len() - 1 == l - 4);
    }
    assert(spec_to_png_name(n) =~= n);
}

/// Round trip: a record whose name and mask name repeat nowhere later comes
/// back from its own export byte for byte, and with its mask present in
/// the archive exactly when the record carried a usable mask.
pub proof fn lemma_export_import_round_trip(
    pretty: Seq<u8>,
    imgs: Seq<ImageDataView>,
    files: Seq<Option<Seq<u8>>>,
    i: int,
)
    requires
        imgs.len() == files.len(),
        0 <= i < imgs.len(),
        valid_name(imgs[i].name),
        spec_resolve_original(imgs[i], files[i]) is Some,
        forall|q: int| i < q < imgs.len() ==> imgs[q].name != imgs[i].name,
        forall|q: int| 0 <= q < imgs.len() && q != i ==> spec_to_png_name(imgs[q].name)
            != spec_to_png_name(imgs[i].name),
    ensures
        ({
            let em = entries_map(spec_export_entries(pretty, imgs, files));
            let nm = imgs[i].name;
            let got = spec_imported_image(em, nm);
            let mask_produced = match imgs[i].mask_data_url {
                Some(mu) => spec_mask_value(mu),
                None => None::<Seq<u8>>,
            };
            &&& em.contains_key(originals_key(nm))
            &&& Some(em[originals_key(nm)]) == spec_resolve_original(imgs[i], files[i])
            &&& (encodable(em[originals_key(nm)]) ==> got.data_url == Some(
                spec_data_url(spec_mime_of(nm), em[originals_key(nm)]),
            ))
            &&& (mask_produced matches Some(v) ==> em.contains_key(
                masks_key(spec_to_png_name(nm)),
            ) && em[masks_key(spec_to_png_name(nm))] == v && (encodable(v)
                ==> got.mask_data_url is Some))
            &&& (mask_produced is None ==> got.mask_data_url is None)
        }),
{
    let em = entries_map(spec_export_entries(pretty, imgs, files));
    let nm = imgs[i].name;
    let k1 = masks_key(spec_to_png_name(nm));
    let k2 = masks_key(nm);
    lemma_records_orig_lookup(imgs, files, i);
    lemma_export_lookup(pretty, imgs, files, originals_key(nm));
    lemma_records_mask_lookup(imgs, files, i);
    lemma_export_lookup(pretty, imgs, files, k1);
    let mask_produced = match imgs[i].mask_data_url {
        Some(mu) => spec_mask_value(mu),
        None => None::<Seq<u8>>,
    };
    if mask_produced is None {
        // no mask entry under the renamed key; show the raw-name probe also
        // misses, so the imported mask field is explicitly absent
        lemma_key_families(nm, spec_to_png_name(nm));
        assert(!em.contains_key(k1));
        if em.contains_key(k2) {
            lemma_insert_all_lookup(
                no_entries(),
                spec_export_entries(pretty, imgs, files),
                k2,
            );
            lemma_last_write_witness(spec_export_entries(pretty, imgs, files), k2);
            let p = choose|p: int|
                0 <= p < spec_export_entries(pretty, imgs, files).len()
                    && spec_export_entries(pretty, imgs, files)[p].key == k2;
            let base = seq![
                EntryV { key: project_json_key(), data: pretty },
                EntryV { key: originals_dir(), data: Seq::empty() },
                EntryV { key: masks_dir(), data: Seq::empty() },
            ];
            let recs = records_entries(imgs, files);
            assert(spec_export_entries(pretty, imgs, files) == base + recs);
            lemma_key_families(nm, nm);
            if p >= 3 {
                assert((base + recs)[p] == recs[p - 3]);
                lemma_records_keys(imgs, files, p - 3);
                let q = choose|q: int|
                    0 <= q < imgs.len() && (k2 == originals_key(imgs[q].name) || k2
                        == masks_key(spec_to_png_name(imgs[q].name)));
                assert(k2 != originals_key(imgs[q].name)) by {
                    assert(originals_key(imgs[q].name)[0] == 'o' as u8);
                    assert(k2[0] == 'm' as u8);
                }
                // so nm is itself a `.png` name of record q: then nm ends in
                // `.png` and the two probe keys coincide
                lemma_key_inj(masks_dir(), spec_to_png_name(imgs[q].name), nm);
                lemma_png_name_suffix(imgs[q].name);
                lemma_png_name_fixed(nm);
                if q != i {
                    assert(spec_to_png_name(imgs[q].name) != spec_to_png_name(nm));
                    assert(false);
                } else {
                    assert(false);
                }
            }
        }
        assert(spec_probe_png(em, k1, k2) is None);
    }
}

// ---------------------------------------------------------------------------
// Flattened export
// ---------------------------------------------------------------------------

/// One rendered page to write out as a file: a name and its inline data.
pub struct FlatImage {
    pub name: Vec<u8>,
    pub data_url: Vec<u8>,
}

/// The mathematical shadow of `FlatImage`.
pub ghost struct FlatImageView {
    pub name: Seq<u8>,
    pub data_url: Seq<u8>,
}

impl View for FlatImage {
    type V = FlatImageView;

    open spec fn view(&self) -> FlatImageView {
        FlatImageView { name: self.name@, data_url: self.data_url@ }
    }
}

/// The views of a list of rendered pages.
pub open spec fn flat_views(s: Seq<FlatImage>) -> Seq<FlatImageView> {
    s.map_values(|im: FlatImage| im@)
}

/// The files a flattened export produces, in order: each page whose inline
/// data decodes, under its `.png` name; the others are skipped.
pub open spec fn spec_flattened(imgs: Seq<FlatImageView>) -> Seq<EntryV>
    decreases imgs.len(),
{
    if imgs.len() == 0 {
        Seq::empty()
    } else {
        spec_flattened(imgs.drop_last()) + match spec_data_url_bytes(imgs.last().data_url) {
            Some(b) => seq![EntryV { key: spec_to_png_name(imgs.last().name), data: b }],
            None => Seq::empty(),
        }
    }
}

/// Decodes each page's inline data and pairs it with the page's `.png`
/// name; pages whose data does not decode are skipped, not fatal.  The
/// caller writes each pair to a file of that name.
pub fn export_flattened_images(images: &Vec<FlatImage>) -> (r: Vec<PlannedEntry>)
    ensures
        entry_views(r@) == spec_flattened(flat_views(images@)),
{
    let mut out: Vec<PlannedEntry> = Vec::new();
    let n = images.len();
    let mut i: usize = 0;
    proof {
        assert(flat_views(images@).subrange(0, 0) =~= Seq::<FlatImageView>::empty());
    }
    while i < n
        invariant
            n == images@.len(),
            i <= n,
            entry_views(out@) =~~= spec_flattened(flat_views(images@).subrange(0, i as int)),
        decreases n - i,
    {
        let img = &images[i];
        let ghost before = entry_views(out@);
        match decode_data_url(&img.data_url) {
            Some(b) => {
                let key = to_png_name(&img.name);
                out.push(PlannedEntry { key, data: b });
            }
            None => {}
        }
        proof {
            let fv = flat_views(images@);
            assert(fv.subrange(0, i + 1).drop_last() =~= fv.subrange(0, i as int));
            assert(fv.subrange(0, i + 1).last() == fv[i as int]);
            assert(fv[i as int] == img@);
            assert(entry_views(out@) =~~= spec_flattened(fv.subrange(0, i + 1)));
        }
        i += 1;
    }
    proof {
        assert(flat_views(images@).subrange(0, n as int) =~= flat_views(images@));
        assert(entry_views(out@) =~~= spec_flattened(flat_views(images@)));
    }
    out
}

} // verus!
