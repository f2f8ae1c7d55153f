//! Where a web app's downloaded icons go in the hicolor icon theme: SVG
//! icons as they are (scalable for "any", symbolic for "monochrome"),
//! raster icons of purpose "any" as PNG under their own size, and a
//! generated 48x48 icon when none of that size was provided.

use vstd::prelude::*;
use crate::text::{chars_of, dec, dec_chars, push_all, push_str, string_of};
use crate::urls::opt_view;

verus! {

/// Decodes `bytes` with `image::load_from_memory` and gives the decoded
/// image's width and height (`GenericImageView::dimensions`), or `None`
/// when the crate reports an error. Nothing is promised of the result: the
/// crate guesses the format and decodes through hooks that any code in the
/// process may register, so equal bytes need not give equal results.
#[verifier::external_body]
fn image_size(bytes: &[u8]) -> (r: Option<(u32, u32)>) {
    image::load_from_memory(bytes).ok().map(|img| image::GenericImageView::dimensions(&img))
}

/// What becomes of one downloaded icon; paths are relative to the XDG data
/// directory.
pub enum IconPlacement {
    /// An SVG icon, written as is: as the scalable icon when it is for any
    /// purpose, as the symbolic icon when it is monochrome.
    Vector { scalable: Option<String>, symbolic: Option<String> },
    /// A raster icon, converted to PNG and written under its size.
    Raster { path: String, width: u32, height: u32 },
    /// A raster icon not meant for any purpose (no desktop shows symbolic
    /// raster icons): nothing is written.
    Skipped,
    /// A raster icon that cannot be decoded: nothing is written.
    Undecodable,
}

/// The content type of SVG icons.
pub open spec fn svg_type() -> Seq<char> {
    "image/svg+xml"@
}

/// Path of the scalable icon `id`.
pub open spec fn scalable_path(id: Seq<char>) -> Seq<char> {
    "icons/hicolor/scalable/apps/"@ + id + ".svg"@
}

/// Path of the symbolic icon `id`.
pub open spec fn symbolic_path(id: Seq<char>) -> Seq<char> {
    "icons/hicolor/symbolic/apps/"@ + id + "-symbolic.svg"@
}

/// Path of the `width`x`height` PNG icon `id`.
pub open spec fn png_path(id: Seq<char>, width: nat, height: nat) -> Seq<char> {
    "icons/hicolor/"@ + dec(width) + seq!['x'] + dec(height) + "/apps/"@ + id + ".png"@
}

/// Where an icon `id` with content type `content_type`, declared for any
/// purpose (`any`) and/or as monochrome (`monochrome`), goes, given the size
/// its bytes decode to (`size`, read only for a raster icon of any purpose).
pub open spec fn placement_ok(
    r: IconPlacement,
    id: Seq<char>,
    content_type: Seq<char>,
    any: bool,
    monochrome: bool,
    size: Option<(u32, u32)>,
) -> bool {
    if content_type == svg_type() {
        r matches IconPlacement::Vector { scalable, symbolic } && opt_view(scalable) == (if any {
            Some(scalable_path(id))
        } else {
            None
        }) && opt_view(symbolic) == (if monochrome {
            Some(symbolic_path(id))
        } else {
            None
        })
    } else if !any {
        r is Skipped
    } else {
        match size {
            None => r is Undecodable,
            Some((w, h)) => r matches IconPlacement::Raster { path, width, height } && width == w
                && height == h && path@ == png_path(id, w as nat, h as nat),
        }
    }
}

/// Where icon `id` goes, given the size its bytes decode to.
pub fn placement_for(
    id: &str,
    content_type: &str,
    any: bool,
    monochrome: bool,
    size: Option<(u32, u32)>,
) -> (r: IconPlacement)
    ensures
        placement_ok(r, id@, content_type@, any, monochrome, size),
{
    let svg = chars_of("image/svg+xml");
    if crate::text::eq_chars(&chars_of(content_type), &svg) {
        let scalable = if any {
            let mut p = chars_of("icons/hicolor/scalable/apps/");
            push_str(&mut p, id);
            push_str(&mut p, ".svg");
            assert(p@ =~= scalable_path(id@));
            Some(string_of(&p))
        } else {
            None
        };
        let symbolic = if monochrome {
            let mut p = chars_of("icons/hicolor/symbolic/apps/");
            push_str(&mut p, id);
            push_str(&mut p, "-symbolic.svg");
            assert(p@ =~= symbolic_path(id@));
            Some(string_of(&p))
        } else {
            None
        };
        IconPlacement::Vector { scalable, symbolic }
    } else if !any {
        IconPlacement::Skipped
    } else {
        match size {
            None => IconPlacement::Undecodable,
            Some((w, h)) => {
                let mut p = chars_of("icons/hicolor/");
                push_all(&mut p, &dec_chars(w as u64));
                p.push('x');
                push_all(&mut p, &dec_chars(h as u64));
                push_str(&mut p, "/apps/");
                push_str(&mut p, id);
                push_str(&mut p, ".png");
                assert(p@ =~= png_path(id@, w as nat, h as nat));
                IconPlacement::Raster { path: string_of(&p), width: w, height: h }
            },
        }
    }
}

/// Where the downloaded icon `id` with bytes `content` goes. Only a raster
/// icon of any purpose is decoded, with the `image` crate, for its size; it
/// is then placed under the size it decoded to, or is undecodable. Every
/// other icon is placed without decoding.
pub fn icon_placement(id: &str, content_type: &str, any: bool, monochrome: bool, content: &[u8]) -> (r:
    IconPlacement)
    ensures
        (content_type@ == svg_type() || !any) ==> placement_ok(r, id@, content_type@, any, monochrome, None),
        (content_type@ != svg_type() && any) ==> (r is Undecodable || (r matches IconPlacement::Raster {
            path,
            width,
            height,
        } && path@ == png_path(id@, width as nat, height as nat))),
{
    let svg = chars_of("image/svg+xml");
    let size = if !crate::text::eq_chars(&chars_of(content_type), &svg) && any {
        image_size(content)
    } else {
        None
    };
    placement_for(id, content_type, any, monochrome, size)
}

/// Whether a placement is a 48x48 PNG icon.
pub open spec fn is_required_size(p: IconPlacement) -> bool {
    p matches IconPlacement::Raster { width, height, .. } && width == 48 && height == 48
}

/// Whether a 48x48 icon has to be generated: the icon theme requires one,
/// and none of `placed` is one.
pub fn needs_generated_icon(placed: &Vec<IconPlacement>) -> (r: bool)
    ensures
        r == !(exists|i: int| 0 <= i < placed.len() && is_required_size(#[trigger] placed@[i])),
{
    let mut i: usize = 0;
    while i < placed.len()
        invariant
            i <= placed.len(),
            forall|k: int| 0 <= k < i ==> !is_required_size(#[trigger] placed@[k]),
        decreases placed.len() - i,
    {
        match &placed[i] {
            IconPlacement::Raster { width, height, .. } => {
                if *width == 48 && *height == 48 {
                    assert(is_required_size(placed@[i as int]));
                    return false;
                }
            },
            _ => {},
        }
        i = i + 1;
    }
    true
}

/// Path of the generated 48x48 icon `id`.
pub fn generated_icon_path(id: &str) -> (r: String)
    ensures
        r@ == png_path(id@, 48, 48),
{
    let mut p = chars_of("icons/hicolor/");
    push_all(&mut p, &dec_chars(48));
    p.push('x');
    push_all(&mut p, &dec_chars(48));
    push_str(&mut p, "/apps/");
    push_str(&mut p, id);
    push_str(&mut p, ".png");
    assert(p@ =~= png_path(id@, 48, 48));
    string_of(&p)
}

/// The glob pattern of every icon installed for launcher class `classid`
/// under the data directory `data`.
pub fn icons_pattern(data: &str, classid: &str) -> (r: String)
    ensures
        r@ == data@ + "/icons/hicolor/*/apps/"@ + classid@ + seq!['*'],
{
    let mut p = chars_of(data);
    push_str(&mut p, "/icons/hicolor/*/apps/");
    push_str(&mut p, classid);
    p.push('*');
    string_of(&p)
}

/// The size an icon theme directory is named for: `<width>x<height>`, both
/// runs of decimal digits within `u32`.
pub open spec fn size_dir_spec(name: Seq<char>) -> Option<(u32, u32)> {
    match crate::text::split_once(name, 'x') {
        Some((a, b)) => if crate::text::all_digits(a) && crate::text::all_digits(b)
            && crate::text::digits_value(a) <= u32::MAX && crate::text::digits_value(b) <= u32::MAX {
            Some((crate::text::digits_value(a) as u32, crate::text::digits_value(b) as u32))
        } else {
            None
        },
        None => None,
    }
}

/// `a` is no larger than `b`: by width, then by height.
pub open spec fn size_le(a: (u32, u32), b: (u32, u32)) -> bool {
    a.0 < b.0 || (a.0 == b.0 && a.1 <= b.1)
}

/// Reads a decimal run within `u32`.
fn digits_u32(v: &Vec<char>) -> (r: Option<u32>)
    ensures
        r == (if crate::text::all_digits(v@) && crate::text::digits_value(v@) <= u32::MAX {
            Some(crate::text::digits_value(v@) as u32)
        } else {
            None::<u32>
        }),
{
    if v.len() == 0 || v[0] == '+' {
        proof {
            if v.len() > 0 {
                assert(!crate::text::is_digit(v@[0]));
            }
        }
        None
    } else {
        crate::text::parse_u32(v)
    }
}

/// The size the icon theme directory `name` is for, if it is one of sized
/// icons.
pub fn size_of_dir(name: &str) -> (r: Option<(u32, u32)>)
    ensures
        r == size_dir_spec(name@),
{
    let v = chars_of(name);
    let k = crate::text::find_char_in(&v, 'x');
    if k >= v.len() {
        return None;
    }
    let a = crate::text::sub_chars(&v, 0, k);
    let b = crate::text::sub_chars(&v, k + 1, v.len());
    assert(a@ =~= v@.take(k as int));
    assert(b@ =~= v@.skip(k + 1));
    match (digits_u32(&a), digits_u32(&b)) {
        (Some(w), Some(h)) => Some((w, h)),
        _ => None,
    }
}

/// Of the icon theme directories `names` (those that hold the icon looked
/// for), the index of the first one of the largest size; `None` when none
/// of them is named for a size.
pub fn largest_icon_dir(names: &Vec<String>) -> (r: Option<usize>)
    ensures
        r is None <==> forall|i: int| 0 <= i < names.len() ==> size_dir_spec((#[trigger] names@[i])@) is None,
        r matches Some(k) ==> {
            &&& k < names.len()
            &&& size_dir_spec(names@[k as int]@) is Some
            &&& forall|i: int|
                0 <= i < names.len() ==> (size_dir_spec((#[trigger] names@[i])@) matches Some(s) ==> size_le(
                    s,
                    size_dir_spec(names@[k as int]@)->0,
                ))
            &&& forall|i: int|
                0 <= i < k ==> (size_dir_spec((#[trigger] names@[i])@) matches Some(s) ==> !size_le(
                    size_dir_spec(names@[k as int]@)->0,
                    s,
                ))
        },
{
    let mut best: Option<usize> = None;
    let mut best_size: (u32, u32) = (0, 0);
    let mut i: usize = 0;
    while i < names.len()
        invariant
            i <= names.len(),
            best is None <==> forall|j: int| 0 <= j < i ==> size_dir_spec((#[trigger] names@[j])@) is None,
            best matches Some(k) ==> {
                &&& k < i
                &&& size_dir_spec(names@[k as int]@) == Some(best_size)
                &&& forall|j: int|
                    0 <= j < i ==> (size_dir_spec((#[trigger] names@[j])@) matches Some(s) ==> size_le(
                        s,
                        best_size,
                    ))
                &&& forall|j: int|
                    0 <= j < k ==> (size_dir_spec((#[trigger] names@[j])@) matches Some(s) ==> !size_le(
                        best_size,
                        s,
                    ))
            },
        decreases names.len() - i,
    {
        let s = size_of_dir(names[i].as_str());
        match s {
            Some(sz) => {
                let larger = match best {
                    None => true,
                    Some(_) => best_size.0 < sz.0 || (best_size.0 == sz.0 && best_size.1 < sz.1),
                };
                if larger {
                    proof {
                        if best is Some {
                            let k = best->0;
                            assert forall|j: int| 0 <= j < i implies (size_dir_spec((#[trigger] names@[j])@) matches Some(t)
                                ==> !size_le(sz, t)) by {
                                if let Some(t) = size_dir_spec(names@[j]@) {
                                    assert(size_le(t, best_size));
                                }
                            }
                        }
                    }
                    best = Some(i);
                    best_size = sz;
                }
            },
            None => {},
        }
        i = i + 1;
    }
    best
}

/// `p` is an icon file of launcher class `classid` as the removal pattern
/// sees it: `icons/hicolor/<dir>/apps/<classid><rest>`, with neither `dir`
/// nor `rest` crossing a directory.
pub open spec fn under_icon_pattern(p: Seq<char>, classid: Seq<char>) -> bool {
    exists|dir: Seq<char>, rest: Seq<char>|
        #![trigger crate::text::free_of(dir, '/'), crate::text::free_of(rest, '/')]
        p == "icons/hicolor/"@ + dir + "/apps/"@ + classid + rest && crate::text::free_of(dir, '/')
            && crate::text::free_of(rest, '/')
}

proof fn lemma_dec_no_slash(n: nat)
    ensures
        crate::text::free_of(dec(n), '/'),
    decreases n,
{
    if n >= 10 {
        lemma_dec_no_slash(n / 10);
        let d = dec(n / 10);
        assert forall|k: int| 0 <= k < dec(n).len() implies dec(n)[k] != '/' by {
            if k < d.len() {
                assert(dec(n)[k] == d[k]);
            }
        }
    }
}

proof fn lemma_concat_no_slash(a: Seq<char>, b: Seq<char>)
    requires
        crate::text::free_of(a, '/'),
        crate::text::free_of(b, '/'),
    ensures
        crate::text::free_of(a + b, '/'),
{
    assert forall|k: int| 0 <= k < (a + b).len() implies (a + b)[k] != '/' by {
        if k >= a.len() {
            assert((a + b)[k] == b[k - a.len()]);
        }
    }
}

/// Uninstalling removes every icon that installing wrote: each icon file
/// placed for launcher class `classid` (or for one of its shortcuts,
/// `classid` followed by a suffix such as `-0`), and the generated 48x48
/// one, lies under the removal pattern of `classid`.
pub proof fn icons_match_removal_pattern(
    classid: Seq<char>,
    suffix: Seq<char>,
    content_type: Seq<char>,
    any: bool,
    monochrome: bool,
    size: Option<(u32, u32)>,
    placed: IconPlacement,
)
    requires
        crate::text::free_of(suffix, '/'),
        placement_ok(placed, classid + suffix, content_type, any, monochrome, size),
    ensures
        placed matches IconPlacement::Vector { scalable, symbolic } ==> (scalable matches Some(p)
            ==> under_icon_pattern(p@, classid)) && (symbolic matches Some(p) ==> under_icon_pattern(
            p@,
            classid,
        )),
        placed matches IconPlacement::Raster { path, .. } ==> under_icon_pattern(path@, classid),
        under_icon_pattern(png_path(classid + suffix, 48, 48), classid),
{
    reveal_strlit(".svg");
    reveal_strlit("-symbolic.svg");
    reveal_strlit(".png");
    reveal_strlit("scalable");
    reveal_strlit("symbolic");
    reveal_strlit("icons/hicolor/scalable/apps/");
    reveal_strlit("icons/hicolor/symbolic/apps/");
    reveal_strlit("icons/hicolor/");
    reveal_strlit("/apps/");
    let id = classid + suffix;
    let svg_rest = suffix + ".svg"@;
    let sym_rest = suffix + "-symbolic.svg"@;
    let png_rest = suffix + ".png"@;
    lemma_concat_no_slash(suffix, ".svg"@);
    lemma_concat_no_slash(suffix, "-symbolic.svg"@);
    lemma_concat_no_slash(suffix, ".png"@);
    assert(crate::text::free_of("scalable"@, '/'));
    assert(crate::text::free_of("symbolic"@, '/'));
    assert(scalable_path(id) =~= "icons/hicolor/"@ + "scalable"@ + "/apps/"@ + classid + svg_rest);
    assert(symbolic_path(id) =~= "icons/hicolor/"@ + "symbolic"@ + "/apps/"@ + classid + sym_rest);
    assert(under_icon_pattern(scalable_path(id), classid));
    assert(under_icon_pattern(symbolic_path(id), classid));
    assert forall|w: nat, h: nat| #![trigger png_path(id, w, h)] under_icon_pattern(png_path(id, w, h), classid) by {
        let dir = dec(w) + seq!['x'] + dec(h);
        lemma_dec_no_slash(w);
        lemma_dec_no_slash(h);
        lemma_concat_no_slash(dec(w), seq!['x']);
        lemma_concat_no_slash(dec(w) + seq!['x'], dec(h));
        assert(png_path(id, w, h) =~= "icons/hicolor/"@ + dir + "/apps/"@ + classid + png_rest);
    }
    assert(under_icon_pattern(png_path(id, 48, 48), classid));
    if let IconPlacement::Raster { path, width, height } = placed {
        assert(under_icon_pattern(png_path(id, width as nat, height as nat), classid));
    }
}

} // verus!
