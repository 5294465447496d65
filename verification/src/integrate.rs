//! Menu integration of an extracted bundle.
//!
//! An extracted bundle carries a launcher, an icon and a desktop-entry file
//! in its top-level directory. Integration locates the first desktop entry
//! and the first icon (failing loudly when either is missing), and rewrites
//! the copied desktop entry as a whole: the `Icon=` line points at the
//! absolute icon path, the `Exec=` line at the absolute launcher path with
//! the `%U` argument, and every other line passes through unchanged, in
//! order.

use vstd::prelude::*;
use vstd::slice::slice_to_vec;

use crate::bytes::{
    append_bytes, ends_with, has_prefix, has_suffix, join_with, lemma_join_push, lower,
    split_bytes, split_on, starts_with, to_lower,
};
use crate::error::Error;

verus! {

/// The newline that separates desktop-entry lines.
pub const NEWLINE: u8 = 10;

/// The desktop-entry extension, `.desktop`.
pub open spec fn dot_desktop() -> Seq<u8> {
    seq![46u8, 100, 101, 115, 107, 116, 111, 112]
}

/// The desktop-entry extension as an executable value.
pub fn dot_desktop_bytes() -> (r: Vec<u8>)
    ensures
        r@ == dot_desktop(),
{
    let r: Vec<u8> = vec![46u8, 100, 101, 115, 107, 116, 111, 112];
    proof {
        assert(r@ =~= dot_desktop());
    }
    r
}

/// The `Icon=` line prefix.
pub open spec fn icon_prefix() -> Seq<u8> {
    seq![73u8, 99, 111, 110, 61]
}

fn icon_prefix_bytes() -> (r: Vec<u8>)
    ensures
        r@ == icon_prefix(),
{
    let r: Vec<u8> = vec![73u8, 99, 111, 110, 61];
    proof {
        assert(r@ =~= icon_prefix());
    }
    r
}

/// The `Exec=` line prefix.
pub open spec fn exec_prefix() -> Seq<u8> {
    seq![69u8, 120, 101, 99, 61]
}

fn exec_prefix_bytes() -> (r: Vec<u8>)
    ensures
        r@ == exec_prefix(),
{
    let r: Vec<u8> = vec![69u8, 120, 101, 99, 61];
    proof {
        assert(r@ =~= exec_prefix());
    }
    r
}

/// The ` %U` argument appended to the rewritten `Exec=` line.
pub open spec fn exec_args() -> Seq<u8> {
    seq![32u8, 37, 85]
}

fn exec_args_bytes() -> (r: Vec<u8>)
    ensures
        r@ == exec_args(),
{
    let r: Vec<u8> = vec![32u8, 37, 85];
    proof {
        assert(r@ =~= exec_args());
    }
    r
}

/// The icon formats the integrator recognizes, as file-name suffixes.
pub open spec fn icon_suffixes() -> Seq<Seq<u8>> {
    seq![
        seq![46u8, 115, 118, 103],
        seq![46u8, 112, 110, 103],
        seq![46u8, 106, 112, 103],
        seq![46u8, 106, 112, 101, 103],
        seq![46u8, 98, 109, 112],
        seq![46u8, 105, 99, 111],
        seq![46u8, 119, 101, 98, 112],
    ]
}

/// One entry of the extracted bundle's top-level directory.
pub struct DirEntry {
    pub name: Vec<u8>,
    pub is_file: bool,
}

/// The mathematical image of a `DirEntry`.
pub ghost struct DirEntryView {
    pub name: Seq<u8>,
    pub is_file: bool,
}

impl View for DirEntry {
    type V = DirEntryView;

    open spec fn view(&self) -> DirEntryView {
        DirEntryView { name: self.name@, is_file: self.is_file }
    }
}

/// The views of a directory listing.
pub open spec fn entry_views(s: Seq<DirEntry>) -> Seq<DirEntryView> {
    s.map_values(|e: DirEntry| e@)
}

/// A file whose name carries the given suffix over a nonempty stem.
pub open spec fn name_has_suffix(name: Seq<u8>, suffix: Seq<u8>) -> bool {
    name.len() > suffix.len() && ends_with(name, suffix)
}

/// The desktop-entry file of the bundle.
pub open spec fn is_desktop_entry(e: DirEntryView) -> bool {
    e.is_file && name_has_suffix(e.name, dot_desktop())
}

/// An icon file: its lower-cased name ends in one of the recognized icon
/// suffixes.
pub open spec fn is_icon_file(e: DirEntryView) -> bool {
    e.is_file && exists|k: int|
        0 <= k < icon_suffixes().len() && name_has_suffix(lower(e.name), #[trigger] icon_suffixes()[k])
}

/// The name of the first entry satisfying `pred`, in directory order.
pub open spec fn first_name_where(s: Seq<DirEntryView>, pred: spec_fn(DirEntryView) -> bool) -> Option<
    Seq<u8>,
>
    decreases s.len(),
{
    if s.len() == 0 {
        None
    } else if pred(s[0]) {
        Some(s[0].name)
    } else {
        first_name_where(s.skip(1), pred)
    }
}

/// The desktop-entry predicate, as one value.
pub open spec fn desktop_entry_pred() -> spec_fn(DirEntryView) -> bool {
    |e: DirEntryView| is_desktop_entry(e)
}

/// The icon predicate, as one value.
pub open spec fn icon_file_pred() -> spec_fn(DirEntryView) -> bool {
    |e: DirEntryView| is_icon_file(e)
}

/// Locate the bundle's desktop entry: the first file whose name ends in
/// `.desktop`. A bundle without one cannot be integrated.
pub fn find_desktop_file(entries: &Vec<DirEntry>) -> (r: Result<Vec<u8>, Error>)
    ensures
        match r {
            Ok(name) => first_name_where(entry_views(entries@), desktop_entry_pred()) == Some(
                name@,
            ),
            Err(e) => first_name_where(entry_views(entries@), desktop_entry_pred()) is None && e
                == Error::IntegrationFailure,
        },
{
    let ghost all = entry_views(entries@);
    let mut i: usize = 0;
    proof {
        assert(all.skip(0) =~= all);
    }
    while i < entries.len()
        invariant
            i <= entries@.len(),
            all == entry_views(entries@),
            first_name_where(all, desktop_entry_pred()) == first_name_where(
                all.skip(i as int),
                desktop_entry_pred(),
            ),
        decreases entries@.len() - i,
    {
        proof {
            assert(all.skip(i as int)[0] == all[i as int]);
            assert(all[i as int] == entries@[i as int]@);
            assert(all.skip(i as int).skip(1) =~= all.skip(i + 1));
        }
        let e = &entries[i];
        if e.is_file {
            let ext = dot_desktop_bytes();
            if e.name.len() > ext.len() && has_suffix(e.name.as_slice(), ext.as_slice()) {
                return Ok(slice_to_vec(e.name.as_slice()));
            }
        }
        i = i + 1;
    }
    Err(Error::IntegrationFailure)
}

/// Does this lower-cased name end in one of the recognized icon suffixes?
fn lower_name_is_icon(low: &[u8]) -> (r: bool)
    ensures
        r == exists|k: int|
            0 <= k < icon_suffixes().len() && name_has_suffix(low@, #[trigger] icon_suffixes()[k]),
{
    let suffixes: Vec<Vec<u8>> = vec![
        vec![46u8, 115, 118, 103],
        vec![46u8, 112, 110, 103],
        vec![46u8, 106, 112, 103],
        vec![46u8, 106, 112, 101, 103],
        vec![46u8, 98, 109, 112],
        vec![46u8, 105, 99, 111],
        vec![46u8, 119, 101, 98, 112],
    ];
    proof {
        assert(suffixes.deep_view() =~~= icon_suffixes());
    }
    let mut k: usize = 0;
    while k < suffixes.len()
        invariant
            k <= suffixes@.len(),
            suffixes.deep_view() == icon_suffixes(),
            suffixes@.len() == icon_suffixes().len(),
            forall|m: int|
                0 <= m < k ==> !name_has_suffix(low@, #[trigger] icon_suffixes()[m]),
        decreases suffixes@.len() - k,
    {
        proof {
            assert(suffixes.deep_view()[k as int] == suffixes@[k as int]@);
        }
        let suf = &suffixes[k];
        if low.len() > suf.len() && has_suffix(low, suf.as_slice()) {
            return true;
        }
        k = k + 1;
    }
    false
}

/// Locate the bundle's icon: the first file whose lower-cased name ends in a
/// recognized icon suffix. A bundle without one cannot be integrated.
pub fn find_icon_file(entries: &Vec<DirEntry>) -> (r: Result<Vec<u8>, Error>)
    ensures
        match r {
            Ok(name) => first_name_where(entry_views(entries@), icon_file_pred()) == Some(name@),
            Err(e) => first_name_where(entry_views(entries@), icon_file_pred()) is None && e
                == Error::IntegrationFailure,
        },
{
    let ghost all = entry_views(entries@);
    let mut i: usize = 0;
    proof {
        assert(all.skip(0) =~= all);
    }
    while i < entries.len()
        invariant
            i <= entries@.len(),
            all == entry_views(entries@),
            first_name_where(all, icon_file_pred()) == first_name_where(
                all.skip(i as int),
                icon_file_pred(),
            ),
        decreases entries@.len() - i,
    {
        proof {
            assert(all.skip(i as int)[0] == all[i as int]);
            assert(all[i as int] == entries@[i as int]@);
            assert(all.skip(i as int).skip(1) =~= all.skip(i + 1));
        }
        let e = &entries[i];
        if e.is_file {
            let low = to_lower(e.name.as_slice());
            if lower_name_is_icon(low.as_slice()) {
                return Ok(slice_to_vec(e.name.as_slice()));
            }
        }
        i = i + 1;
    }
    Err(Error::IntegrationFailure)
}

/// One rewritten desktop-entry line: `Icon=` lines point at the icon,
/// `Exec=` lines launch the given path with `%U`, all other lines pass
/// through unchanged.
pub open spec fn rewrite_line(l: Seq<u8>, icon: Seq<u8>, launcher: Seq<u8>) -> Seq<u8> {
    if starts_with(l, icon_prefix()) {
        icon_prefix() + icon
    } else if starts_with(l, exec_prefix()) {
        exec_prefix() + launcher + exec_args()
    } else {
        l
    }
}

/// The line rewriter, as one value.
pub open spec fn line_rewriter(icon: Seq<u8>, launcher: Seq<u8>) -> spec_fn(Seq<u8>) -> Seq<u8> {
    |l: Seq<u8>| rewrite_line(l, icon, launcher)
}

/// The whole rewritten desktop-entry text: every line mapped through
/// `rewrite_line`, the line structure kept intact.
pub open spec fn rewritten(content: Seq<u8>, icon: Seq<u8>, launcher: Seq<u8>) -> Seq<u8> {
    join_with(split_on(content, NEWLINE).map_values(line_rewriter(icon, launcher)), NEWLINE)
}

/// Join parts with a delimiter.
pub fn join_bytes(parts: &Vec<Vec<u8>>, d: u8) -> (r: Vec<u8>)
    ensures
        r@ == join_with(parts.deep_view(), d),
{
    let ghost all = parts.deep_view();
    let mut r: Vec<u8> = Vec::new();
    if parts.len() == 0 {
        return r;
    }
    append_bytes(&mut r, parts[0].as_slice());
    proof {
        assert(all.subrange(0, 1) =~~= seq![all[0]]);
        assert(all[0] == parts@[0]@);
        assert(join_with(all.subrange(0, 1), d) == all[0]);
        assert(r@ =~= join_with(all.subrange(0, 1), d));
    }
    let mut i: usize = 1;
    while i < parts.len()
        invariant
            1 <= i <= parts@.len(),
            all == parts.deep_view(),
            all.len() == parts@.len(),
            r@ == join_with(all.subrange(0, i as int), d),
        decreases parts@.len() - i,
    {
        r.push(d);
        append_bytes(&mut r, parts[i].as_slice());
        proof {
            assert(all[i as int] == parts@[i as int]@);
            assert(all.subrange(0, i + 1) =~~= all.subrange(0, i as int).push(all[i as int]));
            lemma_join_push(all.subrange(0, i as int), all[i as int], d);
            assert(r@ =~= join_with(all.subrange(0, i as int), d) + seq![d] + all[i as int]);
        }
        i = i + 1;
    }
    proof {
        assert(all.subrange(0, all.len() as int) =~= all);
    }
    r
}

/// Rewrite a copied desktop entry as one whole: point `Icon=` at the icon
/// path, point `Exec=` at the launcher path with `%U`, and pass every other
/// line through unchanged, in order.
pub fn rewrite_desktop_entry(content: &[u8], icon_path: &[u8], launcher_path: &[u8]) -> (r: Vec<
    u8,
>)
    ensures
        r@ == rewritten(content@, icon_path@, launcher_path@),
{
    let ghost rewriter = line_rewriter(icon_path@, launcher_path@);
    let lines = split_bytes(content, NEWLINE);
    let ghost lv = lines.deep_view();
    let mut out: Vec<Vec<u8>> = Vec::new();
    let mut i: usize = 0;
    proof {
        assert(out.deep_view() =~~= lv.subrange(0, 0).map_values(rewriter));
    }
    while i < lines.len()
        invariant
            i <= lines@.len(),
            lv == lines.deep_view(),
            lv.len() == lines@.len(),
            rewriter == line_rewriter(icon_path@, launcher_path@),
            out.deep_view() == lv.subrange(0, i as int).map_values(rewriter),
        decreases lines@.len() - i,
    {
        proof {
            assert(lv[i as int] == lines@[i as int]@);
        }
        let line = &lines[i];
        let ghost before = out.deep_view();
        let icon_pre = icon_prefix_bytes();
        let exec_pre = exec_prefix_bytes();
        if has_prefix(line.as_slice(), icon_pre.as_slice()) {
            let mut l: Vec<u8> = icon_pre;
            append_bytes(&mut l, icon_path);
            out.push(l);
        } else if has_prefix(line.as_slice(), exec_pre.as_slice()) {
            let mut l: Vec<u8> = exec_pre;
            append_bytes(&mut l, launcher_path);
            let args = exec_args_bytes();
            append_bytes(&mut l, args.as_slice());
            out.push(l);
        } else {
            out.push(slice_to_vec(line.as_slice()));
        }
        proof {
            assert(out.deep_view() =~~= before.push(rewrite_line(
                lv[i as int],
                icon_path@,
                launcher_path@,
            )));
            assert(lv.subrange(0, i + 1) =~~= lv.subrange(0, i as int).push(lv[i as int]));
            assert(lv.subrange(0, i + 1).map_values(rewriter) =~~= lv.subrange(
                0,
                i as int,
            ).map_values(rewriter).push(rewriter(lv[i as int])));
        }
        i = i + 1;
    }
    proof {
        assert(lv.subrange(0, lv.len() as int) =~= lv);
    }
    join_bytes(&out, NEWLINE)
}


/// The file name of the installed desktop entry: the package name
/// lower-cased, with the desktop-entry extension.
pub fn desktop_file_name(name: &[u8]) -> (r: Vec<u8>)
    ensures
        r@ == lower(name@) + dot_desktop(),
{
    let mut r = to_lower(name);
    let ext = dot_desktop_bytes();
    append_bytes(&mut r, ext.as_slice());
    r
}

/// A desktop entry with neither an `Icon=` nor an `Exec=` line comes back
/// byte-identical: the rewrite touches nothing else.
pub proof fn lemma_rewrite_only_touches_icon_and_exec(
    content: Seq<u8>,
    icon: Seq<u8>,
    launcher: Seq<u8>,
)
    requires
        forall|i: int|
            0 <= i < split_on(content, NEWLINE).len() ==> !starts_with(
                #[trigger] split_on(content, NEWLINE)[i],
                icon_prefix(),
            ) && !starts_with(split_on(content, NEWLINE)[i], exec_prefix()),
    ensures
        rewritten(content, icon, launcher) == content,
{
    let lines = split_on(content, NEWLINE);
    assert(lines.map_values(line_rewriter(icon, launcher)) =~~= lines);
    crate::bytes::lemma_join_split(content, NEWLINE);
}

} // verus!
