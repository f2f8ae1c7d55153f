//! KWin window rules (`kwinrulesrc`): the per-app "remember position" rule
//! section and the `[General]` rules list that activates it.

use vstd::prelude::*;
use crate::text::{
    chars_of, dec, dec_chars, eq_chars, join, join_chars, lines, lines_chars, push_all, push_str,
    keep_nonempty, nonempty_only, seqs_of, split, split_chars, starts_with, string_of, sub_chars,
};

verus! {

/// A section of an INI-style file: its header line (empty for the lines
/// before the first header) and its other lines.
pub type Blk = (Seq<char>, Seq<Seq<char>>);

/// Whether `l` opens a new section.
pub open spec fn is_header_line(l: Seq<char>) -> bool {
    l.len() > 0 && l[0] == '['
}

/// The sections of a file given by its lines; the first one has an empty
/// header and holds the lines before the first header line.
pub open spec fn ini_blocks(ls: Seq<Seq<char>>) -> Seq<Blk>
    decreases ls.len(),
{
    if ls.len() == 0 {
        seq![(Seq::<char>::empty(), Seq::<Seq<char>>::empty())]
    } else {
        let b = ini_blocks(ls.drop_last());
        let l = ls.last();
        if is_header_line(l) {
            b.push((l, Seq::<Seq<char>>::empty()))
        } else {
            b.update(b.len() - 1, (b.last().0, b.last().1.push(l)))
        }
    }
}

pub proof fn lemma_ini_blocks_nonempty(ls: Seq<Seq<char>>)
    ensures
        ini_blocks(ls).len() >= 1,
    decreases ls.len(),
{
    if ls.len() > 0 {
        lemma_ini_blocks_nonempty(ls.drop_last());
    }
}

/// `bs` without the sections whose header is `h`.
pub open spec fn without_header(bs: Seq<Blk>, h: Seq<char>) -> Seq<Blk>
    decreases bs.len(),
{
    if bs.len() == 0 {
        bs
    } else {
        let r = without_header(bs.drop_last(), h);
        if bs.last().0 == h {
            r
        } else {
            r.push(bs.last())
        }
    }
}

/// Whether some section of `bs` has header `h`.
pub open spec fn has_header(bs: Seq<Blk>, h: Seq<char>) -> bool {
    exists|i: int| 0 <= i < bs.len() && #[trigger] bs[i].0 == h
}

/// The header of the section that lists the active rules.
pub open spec fn general_header() -> Seq<char> {
    "[General]"@
}

/// Key of the active rules list.
pub open spec fn rules_key() -> Seq<char> {
    "rules="@
}

/// Key of the active rules count.
pub open spec fn count_key() -> Seq<char> {
    "count="@
}

/// The value of the first `rules=` line of `ls`, if any.
pub open spec fn rules_value(ls: Seq<Seq<char>>) -> Option<Seq<char>>
    decreases ls.len(),
{
    if ls.len() == 0 {
        None
    } else if rules_key().is_prefix_of(ls[0]) {
        Some(ls[0].skip(rules_key().len() as int))
    } else {
        rules_value(ls.drop_first())
    }
}

/// The items of `xs` other than `id`.
pub open spec fn without_item(xs: Seq<Seq<char>>, id: Seq<char>) -> Seq<Seq<char>>
    decreases xs.len(),
{
    if xs.len() == 0 {
        xs
    } else {
        let r = without_item(xs.drop_last(), id);
        if xs.last() != id {
            r.push(xs.last())
        } else {
            r
        }
    }
}

/// The lines of `ls` that hold neither a `rules=` nor a `count=` entry.
pub open spec fn without_list_lines(ls: Seq<Seq<char>>) -> Seq<Seq<char>>
    decreases ls.len(),
{
    if ls.len() == 0 {
        ls
    } else {
        let r = without_list_lines(ls.drop_last());
        let l = ls.last();
        if !rules_key().is_prefix_of(l) && !count_key().is_prefix_of(l) {
            r.push(l)
        } else {
            r
        }
    }
}

/// The rule ids listed by the first `rules=` line of `ls`.
pub open spec fn listed_rules(ls: Seq<Seq<char>>) -> Seq<Seq<char>> {
    match rules_value(ls) {
        Some(v) => nonempty_only(split(v, ',')),
        None => Seq::<Seq<char>>::empty(),
    }
}

/// The active rule ids after adding (`install`) or dropping `section`.
pub open spec fn new_rules(ls: Seq<Seq<char>>, section: Seq<char>, install: bool) -> Seq<Seq<char>> {
    let kept = without_item(listed_rules(ls), section);
    if install {
        kept.push(section)
    } else {
        kept
    }
}

/// The lines of a `[General]` section after the update: the count and the
/// list first, then its other lines.
pub open spec fn general_lines(ls: Seq<Seq<char>>, section: Seq<char>, install: bool) -> Seq<Seq<char>> {
    let r = new_rules(ls, section, install);
    seq![count_key() + dec(r.len()), rules_key() + join(r, seq![','])] + without_list_lines(ls)
}

/// `bs` with every `[General]` section updated.
pub open spec fn with_generals(bs: Seq<Blk>, section: Seq<char>, install: bool) -> Seq<Blk>
    decreases bs.len(),
{
    if bs.len() == 0 {
        bs
    } else {
        let r = with_generals(bs.drop_last(), section, install);
        let b = bs.last();
        if b.0 == general_header() {
            r.push((b.0, general_lines(b.1, section, install)))
        } else {
            r.push(b)
        }
    }
}

/// The lines of the rule that makes KWin remember the window position.
pub open spec fn rule_lines(app_name: Seq<char>, app_id: Seq<char>) -> Seq<Seq<char>> {
    seq![
        "Description=ffwebapps: remember window position for "@ + app_name,
        "positionrule=4"@,
        "wmclass="@ + app_id,
        "wmclassmatch=1"@,
        "types=1"@,
    ]
}

/// The rule section's name for the launcher class `classid`.
pub open spec fn section_name(classid: Seq<char>) -> Seq<char> {
    "ffwebapps-"@ + classid
}

/// The header line `[name]`.
pub open spec fn bracketed(name: Seq<char>) -> Seq<char> {
    seq!['['] + name + seq![']']
}

/// The sections of the updated file.
pub open spec fn kwin_blocks(
    content: Seq<char>,
    classid: Seq<char>,
    install: bool,
    app_name: Seq<char>,
    app_id: Seq<char>,
) -> Seq<Blk> {
    let section = section_name(classid);
    let header = bracketed(section);
    let b0 = without_header(ini_blocks(lines(content)), header);
    let b1 = if has_header(b0, general_header()) {
        b0
    } else {
        b0.push((general_header(), Seq::<Seq<char>>::empty()))
    };
    let b2 = with_generals(b1, section, install);
    if install {
        b2.push((header, rule_lines(app_name, app_id)))
    } else {
        b2
    }
}

/// Each of `ls` followed by a line feed.
pub open spec fn render_lines(ls: Seq<Seq<char>>) -> Seq<char>
    decreases ls.len(),
{
    if ls.len() == 0 {
        Seq::<char>::empty()
    } else {
        render_lines(ls.drop_last()) + ls.last() + seq!['\n']
    }
}

/// A section as text: its header line (when it has one), then its lines.
pub open spec fn render_block(b: Blk) -> Seq<char> {
    (if b.0.len() > 0 {
        b.0 + seq!['\n']
    } else {
        Seq::<char>::empty()
    }) + render_lines(b.1)
}

/// The sections as text.
pub open spec fn render(bs: Seq<Blk>) -> Seq<char>
    decreases bs.len(),
{
    if bs.len() == 0 {
        Seq::<char>::empty()
    } else {
        render(bs.drop_last()) + render_block(bs.last())
    }
}

/// The whole updated `kwinrulesrc` text.
pub open spec fn kwin_rules_spec(
    content: Seq<char>,
    classid: Seq<char>,
    install: bool,
    app_name: Seq<char>,
    app_id: Seq<char>,
) -> Seq<char> {
    render(kwin_blocks(content, classid, install, app_name, app_id))
}

/// A section being rebuilt.
struct IniBlock {
    header: Vec<char>,
    lines: Vec<Vec<char>>,
}

spec fn blk(b: IniBlock) -> Blk {
    (b.header@, seqs_of(b.lines@))
}

spec fn blks(v: Seq<IniBlock>) -> Seq<Blk> {
    v.map_values(|b: IniBlock| blk(b))
}

fn parse_blocks(ls: &Vec<Vec<char>>) -> (r: Vec<IniBlock>)
    ensures
        blks(r@) == ini_blocks(seqs_of(ls@)),
{
    let ghost s = seqs_of(ls@);
    let mut done: Vec<IniBlock> = Vec::new();
    let mut header: Vec<char> = Vec::new();
    let mut body: Vec<Vec<char>> = Vec::new();
    let mut i: usize = 0;
    proof {
        assert(s.take(0) =~= Seq::<Seq<char>>::empty());
        assert(header@ =~= Seq::<char>::empty());
        assert(seqs_of(body@) =~= Seq::<Seq<char>>::empty());
        assert(blks(done@) =~= Seq::<Blk>::empty());
        assert(blks(done@).push((header@, seqs_of(body@))) =~= ini_blocks(s.take(0)));
    }
    while i < ls.len()
        invariant
            i <= ls.len(),
            s == seqs_of(ls@),
            blks(done@).push((header@, seqs_of(body@))) == ini_blocks(s.take(i as int)),
        decreases ls.len() - i,
    {
        let l = sub_chars(&ls[i], 0, ls[i].len());
        proof {
            assert(s.take(i + 1).drop_last() =~= s.take(i as int));
            assert(s.take(i + 1).last() == l@);
        }
        if l.len() > 0 && l[0] == '[' {
            let ghost d0 = blks(done@);
            let ghost cur = (header@, seqs_of(body@));
            let finished = IniBlock { header, lines: body };
            done.push(finished);
            assert(blks(done@) =~= d0.push(cur));
            assert(is_header_line(l@));
            assert(ini_blocks(s.take(i + 1)) == d0.push(cur).push((l@, Seq::<Seq<char>>::empty())));
            header = l;
            body = Vec::new();
            assert(seqs_of(body@) =~= Seq::<Seq<char>>::empty());
            assert(blks(done@).push((header@, seqs_of(body@))) =~= ini_blocks(s.take(i + 1)));
        } else {
            let ghost b0 = seqs_of(body@);
            let ghost prev = ini_blocks(s.take(i as int));
            assert(!is_header_line(l@));
            assert(prev.last() == (header@, b0));
            body.push(l);
            assert(seqs_of(body@) =~= b0.push(s[i as int]));
            assert(ini_blocks(s.take(i + 1)) == prev.update(prev.len() - 1, (header@, b0.push(s[i as int]))));
            assert(blks(done@).push((header@, seqs_of(body@))) =~= ini_blocks(s.take(i + 1)));
        }
        i = i + 1;
    }
    let ghost d0 = blks(done@);
    let ghost cur = (header@, seqs_of(body@));
    done.push(IniBlock { header, lines: body });
    assert(blks(done@) =~= d0.push(cur));
    assert(s.take(ls.len() as int) =~= s);
    done
}


fn copy_lines(ls: &Vec<Vec<char>>) -> (r: Vec<Vec<char>>)
    ensures
        seqs_of(r@) == seqs_of(ls@),
{
    let mut r: Vec<Vec<char>> = Vec::new();
    let mut i: usize = 0;
    while i < ls.len()
        invariant
            i <= ls.len(),
            seqs_of(r@) == seqs_of(ls@).take(i as int),
        decreases ls.len() - i,
    {
        let l = sub_chars(&ls[i], 0, ls[i].len());
        assert(l@ =~= ls@[i as int]@);
        let ghost r0 = seqs_of(r@);
        r.push(l);
        assert(seqs_of(r@) =~= r0.push(ls@[i as int]@));
        i = i + 1;
        assert(seqs_of(r@) =~= seqs_of(ls@).take(i as int));
    }
    assert(seqs_of(ls@).take(ls.len() as int) =~= seqs_of(ls@));
    r
}

fn copy_block(b: &IniBlock) -> (r: IniBlock)
    ensures
        blk(r) == blk(*b),
{
    IniBlock { header: sub_chars(&b.header, 0, b.header.len()), lines: copy_lines(&b.lines) }
}

fn drop_header(bs: &Vec<IniBlock>, h: &Vec<char>) -> (r: Vec<IniBlock>)
    ensures
        blks(r@) == without_header(blks(bs@), h@),
{
    let ghost all = blks(bs@);
    let mut r: Vec<IniBlock> = Vec::new();
    let mut i: usize = 0;
    assert(blks(r@) =~= without_header(all.take(0), h@));
    while i < bs.len()
        invariant
            i <= bs.len(),
            all == blks(bs@),
            blks(r@) == without_header(all.take(i as int), h@),
        decreases bs.len() - i,
    {
        proof {
            assert(all.take(i + 1).drop_last() =~= all.take(i as int));
            assert(all.take(i + 1).last() == blk(bs@[i as int]));
        }
        if !eq_chars(&bs[i].header, h) {
            let c = copy_block(&bs[i]);
            let ghost r0 = blks(r@);
            r.push(c);
            assert(blks(r@) =~= r0.push(blk(bs@[i as int])));
        }
        i = i + 1;
    }
    assert(all.take(bs.len() as int) =~= all);
    r
}

fn any_header(bs: &Vec<IniBlock>, h: &Vec<char>) -> (r: bool)
    ensures
        r == has_header(blks(bs@), h@),
{
    let mut i: usize = 0;
    while i < bs.len()
        invariant
            i <= bs.len(),
            forall|k: int| 0 <= k < i ==> blks(bs@)[k].0 != h@,
        decreases bs.len() - i,
    {
        if eq_chars(&bs[i].header, h) {
            assert(blks(bs@)[i as int].0 == h@);
            return true;
        }
        i = i + 1;
    }
    false
}

proof fn lemma_rules_value_skip(s: Seq<Seq<char>>, i: int)
    requires
        0 <= i < s.len(),
        !rules_key().is_prefix_of(s[i]),
    ensures
        rules_value(s.skip(i)) == rules_value(s.skip(i + 1)),
{
    assert(s.skip(i).drop_first() =~= s.skip(i + 1));
    assert(s.skip(i)[0] == s[i]);
}

fn find_rules_value(ls: &Vec<Vec<char>>, key: &Vec<char>) -> (r: Option<Vec<char>>)
    requires
        key@ == rules_key(),
    ensures
        match r {
            Some(v) => rules_value(seqs_of(ls@)) == Some(v@),
            None => rules_value(seqs_of(ls@)) is None,
        },
{
    let ghost s = seqs_of(ls@);
    let mut i: usize = 0;
    assert(s.skip(0) =~= s);
    while i < ls.len()
        invariant
            i <= ls.len(),
            s == seqs_of(ls@),
            key@ == rules_key(),
            rules_value(s) == rules_value(s.skip(i as int)),
        decreases ls.len() - i,
    {
        if starts_with(&ls[i], key) {
            assert(s.skip(i as int)[0] == s[i as int]);
            return Some(sub_chars(&ls[i], key.len(), ls[i].len()));
        }
        proof {
            lemma_rules_value_skip(s, i as int);
        }
        i = i + 1;
    }
    None
}

fn drop_item(xs: &Vec<Vec<char>>, id: &Vec<char>) -> (r: Vec<Vec<char>>)
    ensures
        seqs_of(r@) == without_item(seqs_of(xs@), id@),
{
    let ghost s = seqs_of(xs@);
    let mut r: Vec<Vec<char>> = Vec::new();
    let mut i: usize = 0;
    assert(seqs_of(r@) =~= without_item(s.take(0), id@));
    while i < xs.len()
        invariant
            i <= xs.len(),
            s == seqs_of(xs@),
            seqs_of(r@) == without_item(s.take(i as int), id@),
        decreases xs.len() - i,
    {
        proof {
            assert(s.take(i + 1).drop_last() =~= s.take(i as int));
            assert(s.take(i + 1).last() == s[i as int]);
        }
        if !eq_chars(&xs[i], id) {
            let c = sub_chars(&xs[i], 0, xs[i].len());
            assert(c@ =~= s[i as int]);
            let ghost r0 = seqs_of(r@);
            r.push(c);
            assert(seqs_of(r@) =~= r0.push(s[i as int]));
        }
        i = i + 1;
    }
    assert(s.take(xs.len() as int) =~= s);
    r
}

fn drop_list_lines(ls: &Vec<Vec<char>>, rk: &Vec<char>, ck: &Vec<char>) -> (r: Vec<Vec<char>>)
    requires
        rk@ == rules_key(),
        ck@ == count_key(),
    ensures
        seqs_of(r@) == without_list_lines(seqs_of(ls@)),
{
    let ghost s = seqs_of(ls@);
    let mut r: Vec<Vec<char>> = Vec::new();
    let mut i: usize = 0;
    assert(seqs_of(r@) =~= without_list_lines(s.take(0)));
    while i < ls.len()
        invariant
            i <= ls.len(),
            s == seqs_of(ls@),
            rk@ == rules_key(),
            ck@ == count_key(),
            seqs_of(r@) == without_list_lines(s.take(i as int)),
        decreases ls.len() - i,
    {
        proof {
            assert(s.take(i + 1).drop_last() =~= s.take(i as int));
            assert(s.take(i + 1).last() == s[i as int]);
        }
        if !starts_with(&ls[i], rk) && !starts_with(&ls[i], ck) {
            let c = sub_chars(&ls[i], 0, ls[i].len());
            assert(c@ =~= s[i as int]);
            let ghost r0 = seqs_of(r@);
            r.push(c);
            assert(seqs_of(r@) =~= r0.push(s[i as int]));
        }
        i = i + 1;
    }
    assert(s.take(ls.len() as int) =~= s);
    r
}

fn general_update(ls: &Vec<Vec<char>>, section: &Vec<char>, install: bool) -> (r: Vec<Vec<char>>)
    ensures
        seqs_of(r@) == general_lines(seqs_of(ls@), section@, install),
{
    let rk = chars_of("rules=");
    let ck = chars_of("count=");
    let listed = match find_rules_value(ls, &rk) {
        Some(v) => {
            let parts = split_chars(&v, ',');
            keep_nonempty(&parts)
        },
        None => Vec::new(),
    };
    assert(seqs_of(listed@) == listed_rules(seqs_of(ls@))) by {
        if rules_value(seqs_of(ls@)) is None {
            assert(seqs_of(listed@) =~= Seq::<Seq<char>>::empty());
        }
    }
    let mut rules = drop_item(&listed, section);
    if install {
        let ghost r0 = seqs_of(rules@);
        let c = sub_chars(section, 0, section.len());
        assert(c@ =~= section@);
        rules.push(c);
        assert(seqs_of(rules@) =~= r0.push(section@));
    }
    let ghost nr = seqs_of(rules@);
    assert(nr == new_rules(seqs_of(ls@), section@, install));
    let mut count_line = ck;
    let n = dec_chars(rules.len() as u64);
    push_all(&mut count_line, &n);
    let mut rules_line = rk;
    let mut comma: Vec<char> = Vec::new();
    comma.push(',');
    let joined = join_chars(&rules, &comma);
    push_all(&mut rules_line, &joined);
    let rest = drop_list_lines(ls, &chars_of("rules="), &chars_of("count="));
    let mut r: Vec<Vec<char>> = Vec::new();
    r.push(count_line);
    r.push(rules_line);
    let ghost head = seqs_of(r@);
    let mut i: usize = 0;
    while i < rest.len()
        invariant
            i <= rest.len(),
            seqs_of(r@) == head + seqs_of(rest@).take(i as int),
        decreases rest.len() - i,
    {
        let c = sub_chars(&rest[i], 0, rest[i].len());
        assert(c@ =~= rest@[i as int]@);
        let ghost r0 = seqs_of(r@);
        r.push(c);
        assert(seqs_of(r@) =~= r0.push(rest@[i as int]@));
        i = i + 1;
        assert(seqs_of(rest@).take(i as int) =~= seqs_of(rest@).take(i - 1).push(rest@[i - 1]@));
    }
    assert(seqs_of(rest@).take(rest.len() as int) =~= seqs_of(rest@));
    assert(seqs_of(r@) =~= general_lines(seqs_of(ls@), section@, install));
    r
}


fn update_generals(bs: &Vec<IniBlock>, section: &Vec<char>, install: bool) -> (r: Vec<IniBlock>)
    ensures
        blks(r@) == with_generals(blks(bs@), section@, install),
{
    let ghost all = blks(bs@);
    let general = chars_of("[General]");
    let mut r: Vec<IniBlock> = Vec::new();
    let mut i: usize = 0;
    assert(blks(r@) =~= with_generals(all.take(0), section@, install));
    while i < bs.len()
        invariant
            i <= bs.len(),
            all == blks(bs@),
            general@ == general_header(),
            blks(r@) == with_generals(all.take(i as int), section@, install),
        decreases bs.len() - i,
    {
        proof {
            assert(all.take(i + 1).drop_last() =~= all.take(i as int));
            assert(all.take(i + 1).last() == blk(bs@[i as int]));
        }
        let ghost r0 = blks(r@);
        if eq_chars(&bs[i].header, &general) {
            let h = sub_chars(&bs[i].header, 0, bs[i].header.len());
            assert(h@ =~= bs@[i as int].header@);
            let ls = general_update(&bs[i].lines, section, install);
            let ghost b = (h@, seqs_of(ls@));
            r.push(IniBlock { header: h, lines: ls });
            assert(blks(r@) =~= r0.push(b));
        } else {
            let c = copy_block(&bs[i]);
            r.push(c);
            assert(blks(r@) =~= r0.push(blk(bs@[i as int])));
        }
        i = i + 1;
    }
    assert(all.take(bs.len() as int) =~= all);
    r
}

fn render_into(out: &mut Vec<char>, ls: &Vec<Vec<char>>)
    ensures
        final(out)@ == old(out)@ + render_lines(seqs_of(ls@)),
{
    let ghost o0 = out@;
    let ghost s = seqs_of(ls@);
    let mut i: usize = 0;
    assert(o0 + render_lines(s.take(0)) =~= o0);
    while i < ls.len()
        invariant
            i <= ls.len(),
            s == seqs_of(ls@),
            out@ == o0 + render_lines(s.take(i as int)),
        decreases ls.len() - i,
    {
        push_all(out, &ls[i]);
        out.push('\n');
        proof {
            assert(s.take(i + 1).drop_last() =~= s.take(i as int));
            assert(s.take(i + 1).last() == ls@[i as int]@);
        }
        i = i + 1;
        assert(out@ =~= o0 + render_lines(s.take(i as int)));
    }
    assert(s.take(ls.len() as int) =~= s);
}

fn render_all(bs: &Vec<IniBlock>) -> (r: Vec<char>)
    ensures
        r@ == render(blks(bs@)),
{
    let ghost all = blks(bs@);
    let mut out: Vec<char> = Vec::new();
    let mut i: usize = 0;
    assert(out@ =~= render(all.take(0)));
    while i < bs.len()
        invariant
            i <= bs.len(),
            all == blks(bs@),
            out@ == render(all.take(i as int)),
        decreases bs.len() - i,
    {
        let ghost o0 = out@;
        if bs[i].header.len() > 0 {
            push_all(&mut out, &bs[i].header);
            out.push('\n');
        }
        assert(out@ =~= o0 + (if bs@[i as int].header@.len() > 0 {
            bs@[i as int].header@ + seq!['\n']
        } else {
            Seq::<char>::empty()
        }));
        render_into(&mut out, &bs[i].lines);
        proof {
            assert(all.take(i + 1).drop_last() =~= all.take(i as int));
            assert(all.take(i + 1).last() == blk(bs@[i as int]));
        }
        i = i + 1;
        assert(out@ =~= render(all.take(i as int)));
    }
    assert(all.take(bs.len() as int) =~= all);
    out
}

/// The `kwinrulesrc` text `content` after installing (`install`) or
/// removing the rule that makes KWin remember the position of the windows
/// of the web app with launcher class `classid`. Every other section and
/// line is kept; the `[General]` rules list and count are kept in step.
/// `app_name` is the name shown in the rule's description and `app_id` the
/// window class the rule matches.
pub fn kwin_rules(content: &str, classid: &str, install: bool, app_name: &str, app_id: &str) -> (r:
    String)
    ensures
        r@ == kwin_rules_spec(content@, classid@, install, app_name@, app_id@),
{
    let text = chars_of(content);
    let ls = lines_chars(&text);
    let parsed = parse_blocks(&ls);
    let mut section = chars_of("ffwebapps-");
    push_str(&mut section, classid);
    let mut header: Vec<char> = Vec::new();
    header.push('[');
    push_all(&mut header, &section);
    header.push(']');
    assert(header@ =~= bracketed(section_name(classid@)));
    let kept = drop_header(&parsed, &header);
    let general = chars_of("[General]");
    let mut with_general = kept;
    if !any_header(&with_general, &general) {
        let ghost b0 = blks(with_general@);
        let empty: Vec<Vec<char>> = Vec::new();
        assert(seqs_of(empty@) =~= Seq::<Seq<char>>::empty());
        with_general.push(IniBlock { header: general, lines: empty });
        assert(blks(with_general@) =~= b0.push((general_header(), Seq::<Seq<char>>::empty())));
    }
    let mut updated = update_generals(&with_general, &section, install);
    if install {
        let mut rule: Vec<Vec<char>> = Vec::new();
        let mut desc = chars_of("Description=ffwebapps: remember window position for ");
        push_str(&mut desc, app_name);
        rule.push(desc);
        rule.push(chars_of("positionrule=4"));
        let mut wm = chars_of("wmclass=");
        push_str(&mut wm, app_id);
        rule.push(wm);
        rule.push(chars_of("wmclassmatch=1"));
        rule.push(chars_of("types=1"));
        assert(seqs_of(rule@) =~= rule_lines(app_name@, app_id@));
        let ghost b0 = blks(updated@);
        updated.push(IniBlock { header, lines: rule });
        assert(blks(updated@) =~= b0.push((bracketed(section_name(classid@)), rule_lines(app_name@, app_id@))));
    }
    let out = render_all(&updated);
    string_of(&out)
}

} // verus!
