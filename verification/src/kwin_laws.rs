//! What the `kwinrulesrc` update promises across calls: applying it twice
//! for the same app is the same as applying only the second update.

use vstd::prelude::*;
use crate::text::{
    dec, free_of, join, lemma_split_concat, lemma_split_free, lemma_split_join, lemma_split_nonempty,
    lemma_split_pieces, lines, nonempty_only, one_line, split, strip_cr,
};
use crate::kwin::{
    Blk, bracketed, count_key, general_header, general_lines, has_header, ini_blocks, is_header_line,
    kwin_blocks, kwin_rules_spec, listed_rules, new_rules, render, render_block, render_lines,
    rules_key, rules_value, rule_lines, section_name, with_generals, without_header, without_item,
    without_list_lines,
};

verus! {

/// The lines of a section as they stand in the file.
pub open spec fn block_lines(b: Blk) -> Seq<Seq<char>> {
    (if b.0.len() > 0 {
        seq![b.0]
    } else {
        Seq::<Seq<char>>::empty()
    }) + b.1
}

/// The lines of all sections, in order.
pub open spec fn all_lines(bs: Seq<Blk>) -> Seq<Seq<char>>
    decreases bs.len(),
{
    if bs.len() == 0 {
        Seq::<Seq<char>>::empty()
    } else {
        all_lines(bs.drop_last()) + block_lines(bs.last())
    }
}

proof fn lemma_render_lines_concat(a: Seq<Seq<char>>, b: Seq<Seq<char>>)
    ensures
        render_lines(a + b) == render_lines(a) + render_lines(b),
    decreases b.len(),
{
    if b.len() == 0 {
        assert(a + b =~= a);
        assert(render_lines(a) + render_lines(b) =~= render_lines(a));
    } else {
        let d = b.drop_last();
        lemma_render_lines_concat(a, d);
        assert((a + b).drop_last() =~= a + d);
        assert((a + b).last() == b.last());
        assert(render_lines(a + b) =~= render_lines(a) + render_lines(b));
    }
}

proof fn lemma_render_all_lines(bs: Seq<Blk>)
    ensures
        render(bs) == render_lines(all_lines(bs)),
    decreases bs.len(),
{
    if bs.len() > 0 {
        let d = bs.drop_last();
        let b = bs.last();
        lemma_render_all_lines(d);
        lemma_render_lines_concat(all_lines(d), block_lines(b));
        if b.0.len() > 0 {
            lemma_render_lines_concat(seq![b.0], b.1);
            let one = seq![b.0];
            assert(one.drop_last() =~= Seq::<Seq<char>>::empty());
            assert(one.last() == b.0);
            assert(render_lines(one) == render_lines(one.drop_last()) + b.0 + seq!['\n']);
            assert(render_lines(one) =~= b.0 + seq!['\n']);
        } else {
            assert(block_lines(b) =~= b.1);
        }
        assert(render_block(b) == render_lines(block_lines(b)));
    }
}

/// `l` ends with a carriage return.
pub open spec fn ends_cr(l: Seq<char>) -> bool {
    l.len() > 0 && l.last() == '\r'
}

/// `l` reads back as itself when written as a line: it holds no line feed
/// and does not end with a carriage return.
pub open spec fn line_ok(l: Seq<char>) -> bool {
    free_of(l, '\n') && !ends_cr(l)
}

/// A text on one line is a line that reads back as itself.
proof fn lemma_one_line_ok(l: Seq<char>)
    requires
        one_line(l),
    ensures
        line_ok(l),
{
    if l.len() > 0 {
        assert(l[l.len() - 1] != '\r');
    }
}

/// Every line reads back as itself.
pub open spec fn all_line_ok(ls: Seq<Seq<char>>) -> bool {
    forall|i: int| 0 <= i < ls.len() ==> line_ok(#[trigger] ls[i])
}

proof fn lemma_split_render(d: Seq<Seq<char>>, y: Seq<char>)
    requires
        all_line_ok(d),
    ensures
        split(render_lines(d) + y, '\n') == d + split(y, '\n'),
    decreases d.len(),
{
    if d.len() == 0 {
        assert(render_lines(d) + y =~= y);
        assert(d + split(y, '\n') =~= split(y, '\n'));
    } else {
        let e = d.drop_last();
        let l = d.last();
        assert(line_ok(d[d.len() - 1]));
        lemma_split_render(e, l);
        lemma_split_free(l, '\n');
        lemma_split_concat(render_lines(e) + l, y, '\n');
        assert(render_lines(d) + y =~= (render_lines(e) + l) + seq!['\n'] + y);
        assert(d =~= e + seq![l]);
        assert(d + split(y, '\n') =~= e + seq![l] + split(y, '\n'));
    }
}

/// Reading back rendered lines gives the lines.
pub proof fn lemma_lines_render(ls: Seq<Seq<char>>)
    requires
        all_line_ok(ls),
    ensures
        lines(render_lines(ls)) == ls,
{
    if ls.len() > 0 {
        let s = render_lines(ls);
        lemma_split_render(ls, Seq::<char>::empty());
        assert(s + Seq::<char>::empty() =~= s);
        let p = split(s, '\n');
        assert(p == ls + seq![Seq::<char>::empty()]);
        assert(p.drop_last() =~= ls);
        assert(s.last() == '\n');
        assert forall|i: int| 0 <= i < ls.len() implies strip_cr(#[trigger] ls[i]) == ls[i] by {
            assert(line_ok(ls[i]));
        }
        assert(p.drop_last().map_values(|l: Seq<char>| strip_cr(l)) =~= ls);
    }
}

/// A line that can stand in a section's body.
pub open spec fn body_line_ok(l: Seq<char>) -> bool {
    line_ok(l) && !is_header_line(l)
}

/// Sections as `ini_blocks` gives them for a file of one-line lines: the
/// first one without a header, every other one under a header line, and no
/// header line among the bodies.
pub open spec fn blocks_wf(bs: Seq<Blk>) -> bool {
    &&& bs.len() >= 1
    &&& bs[0].0.len() == 0
    &&& forall|i: int| 1 <= i < bs.len() ==> is_header_line(#[trigger] bs[i].0) && line_ok(bs[i].0)
    &&& forall|i: int, j: int|
        0 <= i < bs.len() && 0 <= j < bs[i].1.len() ==> body_line_ok(#[trigger] bs[i].1[j])
}

proof fn lemma_ini_append_body(ls: Seq<Seq<char>>, body: Seq<Seq<char>>)
    requires
        forall|j: int| 0 <= j < body.len() ==> !is_header_line(#[trigger] body[j]),
    ensures
        ({
            let ib = ini_blocks(ls);
            ini_blocks(ls + body) == ib.update(ib.len() - 1, (ib.last().0, ib.last().1 + body))
        }),
    decreases body.len(),
{
    crate::kwin::lemma_ini_blocks_nonempty(ls);
    let ib = ini_blocks(ls);
    if body.len() == 0 {
        assert(ls + body =~= ls);
        assert(ib.last().1 + body =~= ib.last().1);
        assert(ib.update(ib.len() - 1, (ib.last().0, ib.last().1 + body)) =~= ib);
    } else {
        let bd = body.drop_last();
        let l = body.last();
        assert(!is_header_line(body[body.len() - 1]));
        lemma_ini_append_body(ls, bd);
        assert((ls + body).drop_last() =~= ls + bd);
        assert((ls + body).last() == l);
        assert(ib.last().1 + bd.push(l) =~= ib.last().1 + body);
        assert(ini_blocks(ls + body) =~= ib.update(ib.len() - 1, (ib.last().0, ib.last().1 + body)));
    }
}

/// Reading the lines of well-formed sections back gives the sections.
pub proof fn lemma_ini_all_lines(bs: Seq<Blk>)
    requires
        blocks_wf(bs),
    ensures
        ini_blocks(all_lines(bs)) == bs,
    decreases bs.len(),
{
    let d = bs.drop_last();
    let b = bs.last();
    assert forall|j: int| 0 <= j < b.1.len() implies !is_header_line(#[trigger] b.1[j]) by {
        assert(body_line_ok(bs[bs.len() - 1].1[j]));
    }
    if bs.len() == 1 {
        let e = Seq::<Seq<char>>::empty();
        assert(all_lines(d) =~= e);
        assert(block_lines(b) =~= b.1);
        assert(all_lines(bs) =~= e + b.1);
        lemma_ini_append_body(e, b.1);
        assert(b.0 =~= Seq::<char>::empty());
        assert(Seq::<Seq<char>>::empty() + b.1 =~= b.1);
        assert(ini_blocks(all_lines(bs)) =~= bs);
    } else {
        assert(blocks_wf(d)) by {
            assert forall|i: int, j: int| 0 <= i < d.len() && 0 <= j < d[i].1.len() implies body_line_ok(
                #[trigger] d[i].1[j],
            ) by {
                assert(d[i] == bs[i]);
            }
            assert forall|i: int| 1 <= i < d.len() implies is_header_line(#[trigger] d[i].0) && line_ok(
                d[i].0,
            ) by {
                assert(d[i] == bs[i]);
            }
        }
        lemma_ini_all_lines(d);
        assert(is_header_line(bs[bs.len() - 1].0));
        let with_h = all_lines(d).push(b.0);
        assert(with_h.drop_last() =~= all_lines(d));
        assert(ini_blocks(with_h) == d.push((b.0, Seq::<Seq<char>>::empty())));
        lemma_ini_append_body(with_h, b.1);
        assert(all_lines(bs) =~= with_h + b.1);
        assert(Seq::<Seq<char>>::empty() + b.1 =~= b.1);
        assert(ini_blocks(all_lines(bs)) =~= bs);
    }
}

proof fn lemma_all_lines_ok(bs: Seq<Blk>)
    requires
        forall|i: int| 0 <= i < bs.len() ==> line_ok(#[trigger] bs[i].0),
        forall|i: int, j: int| 0 <= i < bs.len() && 0 <= j < bs[i].1.len() ==> line_ok(#[trigger] bs[i].1[j]),
    ensures
        all_line_ok(all_lines(bs)),
    decreases bs.len(),
{
    if bs.len() > 0 {
        let d = bs.drop_last();
        let b = bs.last();
        assert forall|i: int, j: int| 0 <= i < d.len() && 0 <= j < d[i].1.len() implies line_ok(
            #[trigger] d[i].1[j],
        ) by {
            assert(d[i] == bs[i]);
        }
        assert forall|i: int| 0 <= i < d.len() implies line_ok(#[trigger] d[i].0) by {
            assert(d[i] == bs[i]);
        }
        lemma_all_lines_ok(d);
        assert(line_ok(bs[bs.len() - 1].0));
        let bl = block_lines(b);
        let a = all_lines(d);
        assert forall|k: int| 0 <= k < (a + bl).len() implies line_ok(#[trigger] (a + bl)[k]) by {
            if k >= a.len() {
                let m = k - a.len();
                if b.0.len() > 0 {
                    if m > 0 {
                        assert(line_ok(bs[bs.len() - 1].1[m - 1]));
                    }
                } else {
                    assert(line_ok(bs[bs.len() - 1].1[m]));
                }
            }
        }
    }
}

/// Rendering well-formed sections and reading the text back gives them back.
pub proof fn lemma_reparse(bs: Seq<Blk>)
    requires
        blocks_wf(bs),
    ensures
        ini_blocks(lines(render(bs))) == bs,
{
    assert forall|i: int, j: int| 0 <= i < bs.len() && 0 <= j < bs[i].1.len() implies line_ok(
        #[trigger] bs[i].1[j],
    ) by {
        assert(body_line_ok(bs[i].1[j]));
    }
    assert forall|i: int| 0 <= i < bs.len() implies line_ok(#[trigger] bs[i].0) by {
        if i == 0 {
            assert(bs[0].0 =~= Seq::<char>::empty());
        }
    }
    lemma_all_lines_ok(bs);
    lemma_render_all_lines(bs);
    lemma_lines_render(all_lines(bs));
    lemma_ini_all_lines(bs);
}

proof fn lemma_sub_free(s: Seq<char>, lo: int, hi: int, c: char)
    requires
        free_of(s, c),
        0 <= lo <= hi <= s.len(),
    ensures
        free_of(s.subrange(lo, hi), c),
{
    assert forall|k: int| 0 <= k < s.subrange(lo, hi).len() implies s.subrange(lo, hi)[k] != c by {
        assert(s.subrange(lo, hi)[k] == s[lo + k]);
    }
}

/// No line of `c`, as `str::lines` reads it, ends with a carriage return
/// (a carriage return right before a line feed is read away, so CRLF line
/// ends are fine).
pub open spec fn no_final_cr(c: Seq<char>) -> bool {
    forall|i: int| 0 <= i < lines(c).len() ==> !ends_cr(#[trigger] lines(c)[i])
}

/// No carriage return of `l` stands right before a comma.
pub open spec fn no_cr_comma(l: Seq<char>) -> bool {
    forall|k: int| 0 <= k < l.len() - 1 && l[k] == '\r' ==> #[trigger] l[k + 1] != ','
}

/// No line of `c` has a carriage return right before a comma.
pub open spec fn no_cr_before_comma(c: Seq<char>) -> bool {
    forall|i: int| 0 <= i < lines(c).len() ==> no_cr_comma(#[trigger] lines(c)[i])
}

proof fn lemma_split_sep_free(s: Seq<char>, c: char)
    ensures
        forall|i: int| 0 <= i < split(s, c).len() ==> free_of(#[trigger] split(s, c)[i], c),
    decreases s.len(),
{
    if s.len() > 0 {
        let t = s.drop_first();
        lemma_split_sep_free(t, c);
        lemma_split_nonempty(t, c);
        let r = split(t, c);
        if s[0] == c {
            assert forall|i: int| 0 <= i < split(s, c).len() implies free_of(#[trigger] split(s, c)[i], c) by {
                if i > 0 {
                    assert(split(s, c)[i] == r[i - 1]);
                }
            }
        } else {
            assert forall|i: int| 0 <= i < split(s, c).len() implies free_of(#[trigger] split(s, c)[i], c) by {
                if i > 0 {
                    assert(split(s, c)[i] == r[i]);
                } else {
                    let q = seq![s[0]] + r[0];
                    assert(split(s, c)[0] == q);
                    assert forall|k: int| 0 <= k < q.len() implies q[k] != c by {
                        if k > 0 {
                            assert(q[k] == r[0][k - 1]);
                        }
                    }
                }
            }
        }
    }
}

/// The lines of a text none of whose lines ends with a carriage return read
/// back as themselves.
pub proof fn lemma_lines_line_ok(c: Seq<char>)
    requires
        no_final_cr(c),
    ensures
        all_line_ok(lines(c)),
{
    if c.len() > 0 {
        let p = split(c, '\n');
        lemma_split_sep_free(c, '\n');
        lemma_split_nonempty(c, '\n');
        let ls = lines(c);
        assert forall|i: int| 0 <= i < ls.len() implies line_ok(#[trigger] ls[i]) by {
            assert(free_of(p[i], '\n'));
            assert(!ends_cr(ls[i]));
            if i < p.len() - 1 {
                let l = p[i];
                assert(ls[i] == strip_cr(l));
                if l.len() > 0 && l.last() == '\r' {
                    lemma_sub_free(l, 0, l.len() - 1, '\n');
                    assert(l.drop_last() =~= l.subrange(0, l.len() - 1));
                }
            }
        }
    }
}

/// The sections of a file of one-line lines are well formed.
pub proof fn lemma_ini_wf(ls: Seq<Seq<char>>)
    requires
        all_line_ok(ls),
    ensures
        blocks_wf(ini_blocks(ls)),
    decreases ls.len(),
{
    if ls.len() > 0 {
        let d = ls.drop_last();
        let l = ls.last();
        assert(line_ok(ls[ls.len() - 1]));
        assert forall|i: int| 0 <= i < d.len() implies line_ok(#[trigger] d[i]) by {
            assert(d[i] == ls[i]);
        }
        lemma_ini_wf(d);
        let b = ini_blocks(d);
        let r = ini_blocks(ls);
        if is_header_line(l) {
            assert(r == b.push((l, Seq::<Seq<char>>::empty())));
            assert forall|i: int, j: int| 0 <= i < r.len() && 0 <= j < r[i].1.len() implies body_line_ok(
                #[trigger] r[i].1[j],
            ) by {
                assert(i < b.len());
                assert(r[i] == b[i]);
            }
            assert forall|i: int| 1 <= i < r.len() implies is_header_line(#[trigger] r[i].0) && line_ok(
                r[i].0,
            ) by {
                if i < b.len() {
                    assert(r[i] == b[i]);
                }
            }
        } else {
            let k = b.len() - 1;
            assert(r == b.update(k, (b.last().0, b.last().1.push(l))));
            assert forall|i: int, j: int| 0 <= i < r.len() && 0 <= j < r[i].1.len() implies body_line_ok(
                #[trigger] r[i].1[j],
            ) by {
                if i == k {
                    if j < b[k].1.len() {
                        assert(r[i].1[j] == b[k].1[j]);
                    } else {
                        assert(r[i].1[j] == l);
                    }
                } else {
                    assert(r[i] == b[i]);
                }
            }
            assert forall|i: int| 1 <= i < r.len() implies is_header_line(#[trigger] r[i].0) && line_ok(
                r[i].0,
            ) by {
                assert(r[i].0 == b[i].0);
            }
        }
    }
}

/// An entry of the active rules list as the list keeps it: non-empty, on
/// one line and free of the list's comma.
pub open spec fn item_ok(x: Seq<char>) -> bool {
    x.len() > 0 && free_of(x, '\n') && free_of(x, ',')
}

/// Every entry is `item_ok`.
pub open spec fn items_ok(xs: Seq<Seq<char>>) -> bool {
    forall|i: int| 0 <= i < xs.len() ==> item_ok(#[trigger] xs[i])
}

proof fn lemma_concat_free(a: Seq<char>, b: Seq<char>, c: char)
    requires
        free_of(a, c),
        free_of(b, c),
    ensures
        free_of(a + b, c),
{
    assert forall|k: int| 0 <= k < (a + b).len() implies (a + b)[k] != c by {
        if k >= a.len() {
            assert((a + b)[k] == b[k - a.len()]);
        }
    }
}

proof fn lemma_nonempty_only_ok(xs: Seq<Seq<char>>)
    requires
        forall|i: int| 0 <= i < xs.len() ==> free_of(#[trigger] xs[i], '\n') && free_of(xs[i], ','),
    ensures
        items_ok(nonempty_only(xs)),
    decreases xs.len(),
{
    if xs.len() > 0 {
        let d = xs.drop_last();
        assert forall|i: int| 0 <= i < d.len() implies free_of(#[trigger] d[i], '\n') && free_of(d[i], ',') by {
            assert(d[i] == xs[i]);
        }
        lemma_nonempty_only_ok(d);
        assert(free_of(xs[xs.len() - 1], '\n') && free_of(xs[xs.len() - 1], ','));
        let r = nonempty_only(d);
        if xs.last().len() > 0 {
            assert forall|i: int| 0 <= i < r.push(xs.last()).len() implies item_ok(
                #[trigger] r.push(xs.last())[i],
            ) by {
                if i < r.len() {
                    assert(r.push(xs.last())[i] == r[i]);
                }
            }
        }
    }
}

proof fn lemma_nonempty_only_id(xs: Seq<Seq<char>>)
    requires
        items_ok(xs),
    ensures
        nonempty_only(xs) == xs,
    decreases xs.len(),
{
    if xs.len() > 0 {
        let d = xs.drop_last();
        assert forall|i: int| 0 <= i < d.len() implies item_ok(#[trigger] d[i]) by {
            assert(d[i] == xs[i]);
        }
        lemma_nonempty_only_id(d);
        assert(item_ok(xs[xs.len() - 1]));
        assert(d.push(xs.last()) =~= xs);
    }
}

proof fn lemma_without_item_ok(xs: Seq<Seq<char>>, id: Seq<char>)
    requires
        items_ok(xs),
    ensures
        items_ok(without_item(xs, id)),
        !without_item(xs, id).contains(id),
    decreases xs.len(),
{
    if xs.len() > 0 {
        let d = xs.drop_last();
        assert forall|i: int| 0 <= i < d.len() implies item_ok(#[trigger] d[i]) by {
            assert(d[i] == xs[i]);
        }
        lemma_without_item_ok(d, id);
        assert(item_ok(xs[xs.len() - 1]));
        let r = without_item(d, id);
        if xs.last() != id {
            let q = r.push(xs.last());
            assert forall|i: int| 0 <= i < q.len() implies item_ok(#[trigger] q[i]) by {
                if i < r.len() {
                    assert(q[i] == r[i]);
                }
            }
            assert forall|i: int| 0 <= i < q.len() implies q[i] != id by {
                if i < r.len() {
                    assert(q[i] == r[i]);
                }
            }
        }
    }
}

proof fn lemma_without_item_absent(xs: Seq<Seq<char>>, id: Seq<char>)
    requires
        !xs.contains(id),
    ensures
        without_item(xs, id) == xs,
    decreases xs.len(),
{
    if xs.len() > 0 {
        let d = xs.drop_last();
        assert(!d.contains(id)) by {
            if d.contains(id) {
                let k = choose|k: int| 0 <= k < d.len() && d[k] == id;
                assert(xs[k] == id);
            }
        }
        lemma_without_item_absent(d, id);
        assert(xs[xs.len() - 1] != id);
        assert(d.push(xs.last()) =~= xs);
    }
}

proof fn lemma_join_free(xs: Seq<Seq<char>>, c: char, d: char)
    requires
        c != d,
        forall|i: int| 0 <= i < xs.len() ==> free_of(#[trigger] xs[i], d),
    ensures
        free_of(join(xs, seq![c]), d),
    decreases xs.len(),
{
    if xs.len() == 0 {
    } else if xs.len() == 1 {
        assert(free_of(xs[0], d));
    } else {
        let e = xs.drop_last();
        assert forall|i: int| 0 <= i < e.len() implies free_of(#[trigger] e[i], d) by {
            assert(e[i] == xs[i]);
        }
        lemma_join_free(e, c, d);
        assert(free_of(xs[xs.len() - 1], d));
        lemma_concat_free(join(e, seq![c]), seq![c], d);
        lemma_concat_free(join(e, seq![c]) + seq![c], xs.last(), d);
    }
}

proof fn lemma_dec_digits(n: nat)
    ensures
        forall|k: int| 0 <= k < dec(n).len() ==> '0' <= #[trigger] dec(n)[k] <= '9',
    decreases n,
{
    if n >= 10 {
        lemma_dec_digits(n / 10);
        let d = dec(n / 10);
        assert forall|k: int| 0 <= k < dec(n).len() implies '0' <= #[trigger] dec(n)[k] <= '9' by {
            if k < d.len() {
                assert(dec(n)[k] == d[k]);
            }
        }
    }
}

proof fn lemma_dec_one_line(n: nat)
    ensures
        one_line(dec(n)),
{
    lemma_dec_digits(n);
    assert forall|k: int| 0 <= k < dec(n).len() implies dec(n)[k] != '\n' && dec(n)[k] != '\r' by {
        assert('0' <= dec(n)[k] <= '9');
    }
}

/// The entries listed by the first `rules=` line are `item_ok`.
proof fn lemma_listed_ok(ls: Seq<Seq<char>>)
    requires
        all_line_ok(ls),
    ensures
        items_ok(listed_rules(ls)),
    decreases ls.len(),
{
    if ls.len() > 0 {
        if rules_key().is_prefix_of(ls[0]) {
            let v = ls[0].skip(rules_key().len() as int);
            assert(line_ok(ls[0]));
            lemma_sub_free(ls[0], rules_key().len() as int, ls[0].len() as int, '\n');
            assert(v =~= ls[0].subrange(rules_key().len() as int, ls[0].len() as int));
            lemma_split_pieces(v, ',', '\n');
            lemma_nonempty_only_ok(split(v, ','));
        } else {
            let d = ls.drop_first();
            assert forall|i: int| 0 <= i < d.len() implies line_ok(#[trigger] d[i]) by {
                assert(d[i] == ls[i + 1]);
            }
            lemma_listed_ok(d);
            assert(listed_rules(ls) == listed_rules(d));
        }
    } else {
        assert(listed_rules(ls) =~= Seq::<Seq<char>>::empty());
    }
}

proof fn lemma_new_rules_ok(ls: Seq<Seq<char>>, section: Seq<char>, install: bool)
    requires
        all_line_ok(ls),
        item_ok(section),
    ensures
        items_ok(new_rules(ls, section, install)),
{
    lemma_listed_ok(ls);
    lemma_without_item_ok(listed_rules(ls), section);
    let k = without_item(listed_rules(ls), section);
    if install {
        assert forall|i: int| 0 <= i < k.push(section).len() implies item_ok(#[trigger] k.push(section)[i]) by {
            if i < k.len() {
                assert(k.push(section)[i] == k[i]);
            }
        }
    }
}

proof fn lemma_without_list_concat(a: Seq<Seq<char>>, b: Seq<Seq<char>>)
    ensures
        without_list_lines(a + b) == without_list_lines(a) + without_list_lines(b),
    decreases b.len(),
{
    if b.len() == 0 {
        assert(a + b =~= a);
        assert(without_list_lines(a) + without_list_lines(b) =~= without_list_lines(a));
    } else {
        let d = b.drop_last();
        lemma_without_list_concat(a, d);
        assert((a + b).drop_last() =~= a + d);
        assert((a + b).last() == b.last());
        assert(without_list_lines(a + b) =~= without_list_lines(a) + without_list_lines(b));
    }
}

proof fn lemma_without_list_idem(ls: Seq<Seq<char>>)
    ensures
        without_list_lines(without_list_lines(ls)) == without_list_lines(ls),
    decreases ls.len(),
{
    if ls.len() > 0 {
        let d = ls.drop_last();
        lemma_without_list_idem(d);
        let r = without_list_lines(d);
        if !rules_key().is_prefix_of(ls.last()) && !count_key().is_prefix_of(ls.last()) {
            assert(r.push(ls.last()).drop_last() =~= r);
        }
    }
}

proof fn lemma_without_list_ok(ls: Seq<Seq<char>>)
    requires
        forall|i: int| 0 <= i < ls.len() ==> body_line_ok(#[trigger] ls[i]),
    ensures
        forall|i: int|
            0 <= i < without_list_lines(ls).len() ==> body_line_ok(#[trigger] without_list_lines(ls)[i]),
    decreases ls.len(),
{
    if ls.len() > 0 {
        let d = ls.drop_last();
        assert forall|i: int| 0 <= i < d.len() implies body_line_ok(#[trigger] d[i]) by {
            assert(d[i] == ls[i]);
        }
        lemma_without_list_ok(d);
        assert(body_line_ok(ls[ls.len() - 1]));
        let r = without_list_lines(d);
        assert forall|i: int| 0 <= i < without_list_lines(ls).len() implies body_line_ok(
            #[trigger] without_list_lines(ls)[i],
        ) by {
            if i < r.len() {
                assert(without_list_lines(ls)[i] == r[i]);
            }
        }
    }
}

/// The two lines that head an updated `[General]` section.
proof fn lemma_list_lines(n: nat, joined: Seq<char>)
    ensures
        count_key().is_prefix_of(count_key() + dec(n)),
        !rules_key().is_prefix_of(count_key() + dec(n)),
        rules_key().is_prefix_of(rules_key() + joined),
        (rules_key() + joined).skip(rules_key().len() as int) == joined,
        !is_header_line(count_key() + dec(n)),
        !is_header_line(rules_key() + joined),
        one_line(count_key() + dec(n)),
{
    reveal_strlit("rules=");
    reveal_strlit("count=");
    assert((count_key() + dec(n))[0] == 'c');
    assert((rules_key() + joined)[0] == 'r');
    assert((count_key() + dec(n)).subrange(0, 6) =~= count_key());
    assert((rules_key() + joined).subrange(0, 6) =~= rules_key());
    assert((rules_key() + joined).skip(6) =~= joined);
    lemma_dec_one_line(n);
    assert(one_line(count_key())) by {
        assert forall|k: int| 0 <= k < 6 implies count_key()[k] != '\n' && count_key()[k] != '\r' by {}
    }
    lemma_concat_free(count_key(), dec(n), '\n');
    lemma_concat_free(count_key(), dec(n), '\r');
}

/// No entry of the first `rules=` list of `ls` ends with a carriage return.
pub open spec fn listed_end_ok(ls: Seq<Seq<char>>) -> bool {
    forall|i: int| 0 <= i < listed_rules(ls).len() ==> !ends_cr(#[trigger] listed_rules(ls)[i])
}

proof fn lemma_without_item_keeps(xs: Seq<Seq<char>>, id: Seq<char>, p: spec_fn(Seq<char>) -> bool)
    requires
        forall|i: int| 0 <= i < xs.len() ==> p(#[trigger] xs[i]),
    ensures
        forall|i: int| 0 <= i < without_item(xs, id).len() ==> p(#[trigger] without_item(xs, id)[i]),
    decreases xs.len(),
{
    if xs.len() > 0 {
        let d = xs.drop_last();
        assert forall|i: int| 0 <= i < d.len() implies p(#[trigger] d[i]) by {
            assert(d[i] == xs[i]);
        }
        lemma_without_item_keeps(d, id, p);
        assert(p(xs[xs.len() - 1]));
        let r = without_item(d, id);
        if xs.last() != id {
            assert forall|i: int| 0 <= i < r.push(xs.last()).len() implies p(#[trigger] r.push(xs.last())[i]) by {
                if i < r.len() {
                    assert(r.push(xs.last())[i] == r[i]);
                }
            }
        }
    }
}

proof fn lemma_join_last(xs: Seq<Seq<char>>)
    requires
        xs.len() > 0,
        xs.last().len() > 0,
    ensures
        join(xs, seq![',']).len() > 0,
        join(xs, seq![',']).last() == xs.last().last(),
{
    if xs.len() > 1 {
        assert(join(xs, seq![',']) == join(xs.drop_last(), seq![',']) + seq![','] + xs.last());
    }
}

/// Updated `[General]` lines are body lines, when the list written does not
/// end with an entry that ends with a carriage return.
proof fn lemma_general_ok(ls: Seq<Seq<char>>, section: Seq<char>, install: bool)
    requires
        forall|i: int| 0 <= i < ls.len() ==> body_line_ok(#[trigger] ls[i]),
        item_ok(section),
        !ends_cr(section),
        install || listed_end_ok(ls),
    ensures
        forall|i: int|
            0 <= i < general_lines(ls, section, install).len() ==> body_line_ok(
                #[trigger] general_lines(ls, section, install)[i],
            ),
{
    assert(all_line_ok(ls)) by {
        assert forall|i: int| 0 <= i < ls.len() implies line_ok(#[trigger] ls[i]) by {
            assert(body_line_ok(ls[i]));
        }
    }
    let r = new_rules(ls, section, install);
    lemma_new_rules_ok(ls, section, install);
    let joined = join(r, seq![',']);
    lemma_list_lines(r.len(), joined);
    lemma_one_line_ok(count_key() + dec(r.len()));
    assert forall|i: int| 0 <= i < r.len() implies free_of(#[trigger] r[i], '\n') by {
        assert(item_ok(r[i]));
    }
    lemma_join_free(r, ',', '\n');
    reveal_strlit("rules=");
    assert(free_of(rules_key(), '\n')) by {
        assert forall|k: int| 0 <= k < 6 implies rules_key()[k] != '\n' by {}
    }
    lemma_concat_free(rules_key(), joined, '\n');
    let rl = rules_key() + joined;
    assert(!ends_cr(rl)) by {
        if r.len() == 0 {
            assert(joined.len() == 0);
            assert(rl.last() == '=');
        } else {
            let kept = without_item(listed_rules(ls), section);
            if install {
                assert(r.last() == section);
            } else {
                let p = |x: Seq<char>| !ends_cr(x);
                lemma_without_item_keeps(listed_rules(ls), section, p);
                assert(r == kept);
                assert(p(kept[kept.len() - 1]));
            }
            assert(item_ok(r[r.len() - 1]));
            lemma_join_last(r);
            assert(rl.last() == joined.last());
        }
    }
    lemma_without_list_ok(ls);
    let g = general_lines(ls, section, install);
    let w = without_list_lines(ls);
    assert forall|i: int| 0 <= i < g.len() implies body_line_ok(#[trigger] g[i]) by {
        if i >= 2 {
            assert(g[i] == w[i - 2]);
        }
    }
}

/// Updating a `[General]` section twice for the same rule is updating it
/// once with the second choice.
proof fn lemma_general_twice(ls: Seq<Seq<char>>, section: Seq<char>, first: bool, second: bool)
    requires
        all_line_ok(ls),
        item_ok(section),
    ensures
        general_lines(general_lines(ls, section, first), section, second) == general_lines(
            ls,
            section,
            second,
        ),
{
    let r1 = new_rules(ls, section, first);
    lemma_new_rules_ok(ls, section, first);
    let joined = join(r1, seq![',']);
    let cl = count_key() + dec(r1.len());
    let rl = rules_key() + joined;
    lemma_list_lines(r1.len(), joined);
    let g = general_lines(ls, section, first);
    assert(g == seq![cl, rl] + without_list_lines(ls));
    lemma_general_listed(ls, section, first);
    // Dropping the rule again leaves what the first update kept.
    let kept = without_item(listed_rules(ls), section);
    lemma_listed_ok(ls);
    lemma_without_item_ok(listed_rules(ls), section);
    lemma_without_item_absent(kept, section);
    if first {
        assert(r1.drop_last() =~= kept);
        assert(without_item(r1, section) == without_item(kept, section));
    }
    assert(without_item(listed_rules(g), section) == kept);
    assert(new_rules(g, section, second) == new_rules(ls, section, second));
    // The other lines are kept as they were.
    lemma_without_list_concat(seq![cl, rl], without_list_lines(ls));
    lemma_without_list_idem(ls);
    assert(without_list_lines(seq![cl, rl]) =~= Seq::<Seq<char>>::empty()) by {
        let two = seq![cl, rl];
        let one = seq![cl];
        assert(two.drop_last() =~= one);
        assert(two.last() == rl);
        assert(one.drop_last() =~= Seq::<Seq<char>>::empty());
        assert(one.last() == cl);
        assert(without_list_lines(two) == without_list_lines(one));
        assert(without_list_lines(one) == without_list_lines(Seq::<Seq<char>>::empty()));
    }
    assert(Seq::<Seq<char>>::empty() + without_list_lines(ls) =~= without_list_lines(ls));
    assert(without_list_lines(g) == without_list_lines(ls));
}

/// The list read back from an updated `[General]` section is the list written.
proof fn lemma_general_listed(ls: Seq<Seq<char>>, section: Seq<char>, install: bool)
    requires
        all_line_ok(ls),
        item_ok(section),
    ensures
        listed_rules(general_lines(ls, section, install)) == new_rules(ls, section, install),
{
    let r1 = new_rules(ls, section, install);
    lemma_new_rules_ok(ls, section, install);
    let joined = join(r1, seq![',']);
    let cl = count_key() + dec(r1.len());
    let rl = rules_key() + joined;
    lemma_list_lines(r1.len(), joined);
    let g = general_lines(ls, section, install);
    assert(rules_value(g) == Some(joined)) by {
        assert(g[0] == cl);
        let t = g.drop_first();
        assert(t[0] == rl);
        assert(rules_value(t) == Some(rl.skip(rules_key().len() as int)));
        assert(rules_value(g) == rules_value(t));
    }
    assert forall|i: int| 0 <= i < r1.len() implies free_of(#[trigger] r1[i], ',') by {
        assert(item_ok(r1[i]));
    }
    lemma_split_join(r1, ',');
    if r1.len() == 0 {
        assert(nonempty_only(seq![Seq::<char>::empty()]) =~= Seq::<Seq<char>>::empty()) by {
            let one = seq![Seq::<char>::empty()];
            assert(one.drop_last() =~= Seq::<Seq<char>>::empty());
            assert(one.last().len() == 0);
            assert(nonempty_only(one) == nonempty_only(one.drop_last()));
        }
        assert(listed_rules(g) =~= r1);
    } else {
        lemma_nonempty_only_id(r1);
        assert(listed_rules(g) == r1);
    }
}

proof fn lemma_with_generals_shape(bs: Seq<Blk>, section: Seq<char>, install: bool)
    ensures
        with_generals(bs, section, install).len() == bs.len(),
        forall|i: int|
            0 <= i < bs.len() ==> (#[trigger] with_generals(bs, section, install)[i]).0 == bs[i].0
                && with_generals(bs, section, install)[i].1 == (if bs[i].0 == general_header() {
                general_lines(bs[i].1, section, install)
            } else {
                bs[i].1
            }),
    decreases bs.len(),
{
    if bs.len() > 0 {
        let d = bs.drop_last();
        lemma_with_generals_shape(d, section, install);
        let w = with_generals(bs, section, install);
        assert forall|i: int| 0 <= i < bs.len() implies (#[trigger] w[i]).0 == bs[i].0 && w[i].1 == (if bs[i].0
            == general_header() {
            general_lines(bs[i].1, section, install)
        } else {
            bs[i].1
        }) by {
            if i < d.len() {
                assert(w[i] == with_generals(d, section, install)[i]);
                assert(d[i] == bs[i]);
            }
        }
    }
}

proof fn lemma_without_wf(bs: Seq<Blk>, h: Seq<char>)
    requires
        blocks_wf(bs),
        h.len() > 0,
    ensures
        blocks_wf(without_header(bs, h)),
        !has_header(without_header(bs, h), h),
    decreases bs.len(),
{
    let d = bs.drop_last();
    let r = without_header(bs, h);
    if bs.len() == 1 {
        assert(without_header(d, h) =~= Seq::<Blk>::empty());
        assert(bs.last().0 != h);
        assert(r =~= seq![bs[0]]);
    } else {
        assert(blocks_wf(d)) by {
            assert forall|i: int, j: int| 0 <= i < d.len() && 0 <= j < d[i].1.len() implies body_line_ok(
                #[trigger] d[i].1[j],
            ) by {
                assert(d[i] == bs[i]);
            }
            assert forall|i: int| 1 <= i < d.len() implies is_header_line(#[trigger] d[i].0) && line_ok(
                d[i].0,
            ) by {
                assert(d[i] == bs[i]);
            }
        }
        lemma_without_wf(d, h);
        let rd = without_header(d, h);
        if bs.last().0 != h {
            let k = bs.len() - 1;
            assert(is_header_line(bs[k].0) && line_ok(bs[k].0));
            assert forall|i: int, j: int| 0 <= i < r.len() && 0 <= j < r[i].1.len() implies body_line_ok(
                #[trigger] r[i].1[j],
            ) by {
                if i < rd.len() {
                    assert(r[i] == rd[i]);
                } else {
                    assert(body_line_ok(bs[k].1[j]));
                }
            }
            assert forall|i: int| 1 <= i < r.len() implies is_header_line(#[trigger] r[i].0) && line_ok(
                r[i].0,
            ) by {
                if i < rd.len() {
                    assert(r[i] == rd[i]);
                }
            }
            assert(!has_header(r, h)) by {
                if has_header(r, h) {
                    let i = choose|i: int| 0 <= i < r.len() && #[trigger] r[i].0 == h;
                    if i < rd.len() {
                        assert(r[i] == rd[i]);
                    }
                }
            }
        }
    }
}

proof fn lemma_without_absent(bs: Seq<Blk>, h: Seq<char>)
    requires
        !has_header(bs, h),
    ensures
        without_header(bs, h) == bs,
    decreases bs.len(),
{
    if bs.len() > 0 {
        let d = bs.drop_last();
        assert(!has_header(d, h)) by {
            if has_header(d, h) {
                let i = choose|i: int| 0 <= i < d.len() && #[trigger] d[i].0 == h;
                assert(bs[i] == d[i]);
            }
        }
        lemma_without_absent(d, h);
        assert(bs[bs.len() - 1].0 != h);
        assert(d.push(bs.last()) =~= bs);
    }
}

proof fn lemma_without_with_generals(bs: Seq<Blk>, h: Seq<char>, section: Seq<char>, install: bool)
    requires
        h != general_header(),
    ensures
        without_header(with_generals(bs, section, install), h) == with_generals(
            without_header(bs, h),
            section,
            install,
        ),
    decreases bs.len(),
{
    if bs.len() > 0 {
        let d = bs.drop_last();
        lemma_without_with_generals(d, h, section, install);
        let w = with_generals(bs, section, install);
        let wd = with_generals(d, section, install);
        let b = bs.last();
        let nb = if b.0 == general_header() {
            (b.0, general_lines(b.1, section, install))
        } else {
            b
        };
        assert(w == wd.push(nb));
        assert(w.drop_last() =~= wd);
        assert(w.last() == nb);
        let rd = without_header(d, h);
        if b.0 != h {
            assert(without_header(bs, h) == rd.push(b));
            assert(rd.push(b).drop_last() =~= rd);
        }
    }
}

/// Every `[General]` section of `bs` lists no entry that ends with a
/// carriage return.
pub open spec fn generals_end_ok(bs: Seq<Blk>) -> bool {
    forall|i: int| 0 <= i < bs.len() && #[trigger] bs[i].0 == general_header() ==> listed_end_ok(bs[i].1)
}

proof fn lemma_with_generals_wf(bs: Seq<Blk>, section: Seq<char>, install: bool)
    requires
        blocks_wf(bs),
        item_ok(section),
        !ends_cr(section),
        install || generals_end_ok(bs),
    ensures
        blocks_wf(with_generals(bs, section, install)),
{
    lemma_with_generals_shape(bs, section, install);
    let w = with_generals(bs, section, install);
    assert forall|i: int, j: int| 0 <= i < w.len() && 0 <= j < w[i].1.len() implies body_line_ok(
        #[trigger] w[i].1[j],
    ) by {
        if bs[i].0 == general_header() {
            assert forall|k: int| 0 <= k < bs[i].1.len() implies body_line_ok(#[trigger] bs[i].1[k]) by {}
            assert(install || listed_end_ok(bs[i].1));
            lemma_general_ok(bs[i].1, section, install);
            assert(w[i].1 == general_lines(bs[i].1, section, install));
        }
    }
    assert forall|i: int| 1 <= i < w.len() implies is_header_line(#[trigger] w[i].0) && line_ok(w[i].0) by {
        assert(w[i].0 == bs[i].0);
    }
}

proof fn lemma_with_generals_twice(bs: Seq<Blk>, section: Seq<char>, first: bool, second: bool)
    requires
        blocks_wf(bs),
        item_ok(section),
    ensures
        with_generals(with_generals(bs, section, first), section, second) == with_generals(
            bs,
            section,
            second,
        ),
{
    let w1 = with_generals(bs, section, first);
    lemma_with_generals_shape(bs, section, first);
    lemma_with_generals_shape(w1, section, second);
    lemma_with_generals_shape(bs, section, second);
    let ww = with_generals(w1, section, second);
    let w2 = with_generals(bs, section, second);
    assert forall|i: int| 0 <= i < bs.len() implies #[trigger] ww[i] == w2[i] by {
        assert(w1[i].0 == bs[i].0);
        if bs[i].0 == general_header() {
            assert(all_line_ok(bs[i].1)) by {
                assert forall|k: int| 0 <= k < bs[i].1.len() implies line_ok(#[trigger] bs[i].1[k]) by {
                    assert(body_line_ok(bs[i].1[k]));
                }
            }
            lemma_general_twice(bs[i].1, section, first, second);
        }
    }
    assert(ww =~= w2);
}

proof fn lemma_literal_one_line(s: Seq<char>)
    requires
        forall|k: int| 0 <= k < s.len() ==> s[k] != '\n' && s[k] != '\r',
    ensures
        one_line(s),
{
}

/// The facts about the rule's section name and header that the update relies on.
proof fn lemma_section_facts(classid: Seq<char>)
    requires
        one_line(classid),
        free_of(classid, ','),
    ensures
        item_ok(section_name(classid)),
        !ends_cr(section_name(classid)),
        is_header_line(bracketed(section_name(classid))),
        line_ok(bracketed(section_name(classid))),
        bracketed(section_name(classid)) != general_header(),
        is_header_line(general_header()),
        line_ok(general_header()),
{
    reveal_strlit("ffwebapps-");
    reveal_strlit("[General]");
    let p = "ffwebapps-"@;
    let s = section_name(classid);
    let h = bracketed(s);
    lemma_literal_one_line(p);
    assert(free_of(p, ',')) by {
        assert forall|k: int| 0 <= k < p.len() implies p[k] != ',' by {}
    }
    lemma_concat_free(p, classid, '\n');
    lemma_concat_free(p, classid, '\r');
    lemma_concat_free(p, classid, ',');
    lemma_literal_one_line(seq!['[']);
    lemma_literal_one_line(seq![']']);
    lemma_concat_free(seq!['['], s, '\n');
    lemma_concat_free(seq!['['], s, '\r');
    lemma_concat_free(seq!['['] + s, seq![']'], '\n');
    lemma_concat_free(seq!['['] + s, seq![']'], '\r');
    assert(h[0] == '[');
    assert(h[1] == 'f');
    assert(general_header()[1] == 'G');
    lemma_literal_one_line(general_header());
    lemma_one_line_ok(general_header());
    lemma_one_line_ok(s);
    lemma_one_line_ok(h);
}

/// The rule's own lines are body lines.
proof fn lemma_rule_lines_ok(app_name: Seq<char>, app_id: Seq<char>)
    requires
        one_line(app_name),
        one_line(app_id),
    ensures
        forall|j: int|
            0 <= j < rule_lines(app_name, app_id).len() ==> body_line_ok(
                #[trigger] rule_lines(app_name, app_id)[j],
            ),
{
    let d = "Description=ffwebapps: remember window position for "@;
    let w = "wmclass="@;
    reveal_strlit("Description=ffwebapps: remember window position for ");
    reveal_strlit("positionrule=4");
    reveal_strlit("wmclass=");
    reveal_strlit("wmclassmatch=1");
    reveal_strlit("types=1");
    lemma_literal_one_line(d);
    lemma_literal_one_line(w);
    lemma_literal_one_line("positionrule=4"@);
    lemma_literal_one_line("wmclassmatch=1"@);
    lemma_literal_one_line("types=1"@);
    lemma_concat_free(d, app_name, '\n');
    lemma_concat_free(d, app_name, '\r');
    lemma_concat_free(w, app_id, '\n');
    lemma_concat_free(w, app_id, '\r');
    assert((d + app_name)[0] == 'D');
    assert((w + app_id)[0] == 'w');
    lemma_one_line_ok(d + app_name);
    lemma_one_line_ok(w + app_id);
    lemma_one_line_ok("positionrule=4"@);
    lemma_one_line_ok("wmclassmatch=1"@);
    lemma_one_line_ok("types=1"@);
}

/// The sections that an update produces are well formed.
proof fn lemma_kwin_blocks_wf(
    content: Seq<char>,
    classid: Seq<char>,
    install: bool,
    app_name: Seq<char>,
    app_id: Seq<char>,
)
    requires
        no_final_cr(content),
        install || no_cr_before_comma(content),
        one_line(classid),
        free_of(classid, ','),
        one_line(app_name),
        one_line(app_id),
    ensures
        blocks_wf(kwin_blocks(content, classid, install, app_name, app_id)),
{
    let section = section_name(classid);
    let header = bracketed(section);
    lemma_section_facts(classid);
    lemma_lines_line_ok(content);
    lemma_ini_wf(lines(content));
    let b0 = without_header(ini_blocks(lines(content)), header);
    lemma_without_wf(ini_blocks(lines(content)), header);
    let b1 = if has_header(b0, general_header()) {
        b0
    } else {
        b0.push((general_header(), Seq::<Seq<char>>::empty()))
    };
    assert(blocks_wf(b1)) by {
        if !has_header(b0, general_header()) {
            let g = (general_header(), Seq::<Seq<char>>::empty());
            assert forall|i: int, j: int| 0 <= i < b1.len() && 0 <= j < b1[i].1.len() implies body_line_ok(
                #[trigger] b1[i].1[j],
            ) by {
                assert(i < b0.len());
                assert(b1[i] == b0[i]);
            }
            assert forall|i: int| 1 <= i < b1.len() implies is_header_line(#[trigger] b1[i].0) && line_ok(
                b1[i].0,
            ) by {
                if i < b0.len() {
                    assert(b1[i] == b0[i]);
                }
            }
        }
    }
    if !install {
        let ls = lines(content);
        assert forall|i: int| 0 <= i < ls.len() implies no_cr_comma(#[trigger] ls[i]) by {}
        lemma_ini_bodies(ls);
        lemma_without_bodies(ini_blocks(ls), header);
        assert(bodies_cr_ok(b1)) by {
            if !has_header(b0, general_header()) {
                assert forall|i: int, j: int| 0 <= i < b1.len() && 0 <= j < b1[i].1.len() implies no_cr_comma(
                    #[trigger] b1[i].1[j],
                ) by {
                    assert(i < b0.len());
                    assert(b1[i] == b0[i]);
                }
            }
        }
        lemma_generals_end(b1);
    }
    lemma_with_generals_wf(b1, section, install);
    let b2 = with_generals(b1, section, install);
    if install {
        lemma_rule_lines_ok(app_name, app_id);
        let r = b2.push((header, rule_lines(app_name, app_id)));
        assert forall|i: int, j: int| 0 <= i < r.len() && 0 <= j < r[i].1.len() implies body_line_ok(
            #[trigger] r[i].1[j],
        ) by {
            if i < b2.len() {
                assert(r[i] == b2[i]);
            }
        }
        assert forall|i: int| 1 <= i < r.len() implies is_header_line(#[trigger] r[i].0) && line_ok(r[i].0) by {
            if i < b2.len() {
                assert(r[i] == b2[i]);
            }
        }
    }
}

/// Updating the `kwinrulesrc` text twice for the same app gives what the
/// second update alone gives: installing twice is installing once, and
/// removing after installing is removing. This holds for any text none of
/// whose lines, as read, ends with a carriage return (CRLF line ends are
/// fine) and, when the first update removes, none of whose lines has a
/// carriage return before a comma; for any class id that fits on one line
/// and holds no comma, the rules list's separator; and for a first name and
/// window class that fit on one line.
pub proof fn kwin_update_twice(
    content: Seq<char>,
    classid: Seq<char>,
    first: bool,
    first_name: Seq<char>,
    first_id: Seq<char>,
    second: bool,
    second_name: Seq<char>,
    second_id: Seq<char>,
)
    requires
        no_final_cr(content),
        first || no_cr_before_comma(content),
        one_line(classid),
        free_of(classid, ','),
        one_line(first_name),
        one_line(first_id),
    ensures
        kwin_rules_spec(
            kwin_rules_spec(content, classid, first, first_name, first_id),
            classid,
            second,
            second_name,
            second_id,
        ) == kwin_rules_spec(content, classid, second, second_name, second_id),
{
    let section = section_name(classid);
    let header = bracketed(section);
    lemma_section_facts(classid);
    lemma_lines_line_ok(content);
    lemma_ini_wf(lines(content));
    let k1 = kwin_blocks(content, classid, first, first_name, first_id);
    lemma_kwin_blocks_wf(content, classid, first, first_name, first_id);
    lemma_reparse(k1);
    let b0 = without_header(ini_blocks(lines(content)), header);
    lemma_without_wf(ini_blocks(lines(content)), header);
    let b1 = if has_header(b0, general_header()) {
        b0
    } else {
        b0.push((general_header(), Seq::<Seq<char>>::empty()))
    };
    assert(!has_header(b1, header)) by {
        if has_header(b1, header) {
            let i = choose|i: int| 0 <= i < b1.len() && #[trigger] b1[i].0 == header;
            if i < b0.len() {
                assert(b1[i] == b0[i]);
            }
        }
    }
    assert(has_header(b1, general_header())) by {
        if !has_header(b0, general_header()) {
            assert(b1[b1.len() - 1].0 == general_header());
        }
    }
    assert(blocks_wf(b1)) by {
        if !has_header(b0, general_header()) {
            assert forall|i: int, j: int| 0 <= i < b1.len() && 0 <= j < b1[i].1.len() implies body_line_ok(
                #[trigger] b1[i].1[j],
            ) by {
                assert(i < b0.len());
                assert(b1[i] == b0[i]);
            }
            assert forall|i: int| 1 <= i < b1.len() implies is_header_line(#[trigger] b1[i].0) && line_ok(
                b1[i].0,
            ) by {
                if i < b0.len() {
                    assert(b1[i] == b0[i]);
                }
            }
        }
    }
    let w1 = with_generals(b1, section, first);
    // The first update's own rule section goes again, and with it nothing else.
    assert(without_header(k1, header) == w1) by {
        if first {
            let k = w1.push((header, rule_lines(first_name, first_id)));
            assert(k.drop_last() =~= w1);
            assert(without_header(k, header) == without_header(w1, header));
        }
        lemma_without_with_generals(b1, header, section, first);
        lemma_without_absent(b1, header);
    }
    // A `[General]` section is there already.
    assert(has_header(w1, general_header())) by {
        lemma_with_generals_shape(b1, section, first);
        let i = choose|i: int| 0 <= i < b1.len() && #[trigger] b1[i].0 == general_header();
        assert(w1[i].0 == general_header());
    }
    lemma_with_generals_twice(b1, section, first, second);
}

/// After an update, the written file has a `[General]` section, and each of
/// them lists the rule exactly when it was installed, and opens with a
/// `count=` line that gives the number of rules it lists.
pub proof fn kwin_general_in_sync(
    content: Seq<char>,
    classid: Seq<char>,
    install: bool,
    app_name: Seq<char>,
    app_id: Seq<char>,
)
    requires
        no_final_cr(content),
        install || no_cr_before_comma(content),
        one_line(classid),
        free_of(classid, ','),
        one_line(app_name),
        one_line(app_id),
    ensures
        ({
            let written = ini_blocks(lines(kwin_rules_spec(content, classid, install, app_name, app_id)));
            &&& has_header(written, general_header())
            &&& forall|i: int|
                0 <= i < written.len() && #[trigger] written[i].0 == general_header() ==> {
                    let listed = listed_rules(written[i].1);
                    &&& listed.contains(section_name(classid)) == install
                    &&& written[i].1.len() >= 1
                    &&& written[i].1[0] == count_key() + dec(listed.len())
                }
        }),
{
    let section = section_name(classid);
    let header = bracketed(section);
    lemma_section_facts(classid);
    lemma_lines_line_ok(content);
    lemma_ini_wf(lines(content));
    let k = kwin_blocks(content, classid, install, app_name, app_id);
    lemma_kwin_blocks_wf(content, classid, install, app_name, app_id);
    lemma_reparse(k);
    let b0 = without_header(ini_blocks(lines(content)), header);
    lemma_without_wf(ini_blocks(lines(content)), header);
    let b1 = if has_header(b0, general_header()) {
        b0
    } else {
        b0.push((general_header(), Seq::<Seq<char>>::empty()))
    };
    assert(has_header(b1, general_header())) by {
        if !has_header(b0, general_header()) {
            assert(b1[b1.len() - 1].0 == general_header());
        }
    }
    let w = with_generals(b1, section, install);
    lemma_with_generals_shape(b1, section, install);
    assert forall|i: int| 0 <= i < k.len() && #[trigger] k[i].0 == general_header() implies {
        let listed = listed_rules(k[i].1);
        &&& listed.contains(section) == install
        &&& k[i].1.len() >= 1
        &&& k[i].1[0] == count_key() + dec(listed.len())
    } by {
        if install && i == w.len() {
            assert(k[i].0 == header);
        } else {
            assert(i < w.len());
            assert(k[i] == w[i]);
            let ls = b1[i].1;
            assert(b1[i].0 == general_header());
            assert(all_line_ok(ls)) by {
                assert(blocks_wf(b1)) by {
                    if !has_header(b0, general_header()) {
                        assert forall|a: int, j: int| 0 <= a < b1.len() && 0 <= j < b1[a].1.len() implies body_line_ok(
                            #[trigger] b1[a].1[j],
                        ) by {
                            assert(a < b0.len());
                            assert(b1[a] == b0[a]);
                        }
                    }
                }
                assert forall|j: int| 0 <= j < ls.len() implies line_ok(#[trigger] ls[j]) by {
                    assert(body_line_ok(b1[i].1[j]));
                }
            }
            lemma_general_listed(ls, section, install);
            let kept = without_item(listed_rules(ls), section);
            lemma_listed_ok(ls);
            lemma_without_item_ok(listed_rules(ls), section);
            if install {
                assert(kept.push(section)[kept.len() as int] == section);
            }
        }
    }
    assert(has_header(k, general_header())) by {
        let i = choose|i: int| 0 <= i < b1.len() && #[trigger] b1[i].0 == general_header();
        assert(w[i].0 == general_header());
        assert(k[i] == w[i]);
    }
}

/// The sections of `bs` that are neither the rule section `h` nor a
/// `[General]` section, in order.
pub open spec fn other_sections(bs: Seq<Blk>, h: Seq<char>) -> Seq<Blk>
    decreases bs.len(),
{
    if bs.len() == 0 {
        bs
    } else {
        let r = other_sections(bs.drop_last(), h);
        let b = bs.last();
        if b.0 != h && b.0 != general_header() {
            r.push(b)
        } else {
            r
        }
    }
}

proof fn lemma_others_push_skipped(bs: Seq<Blk>, b: Blk, h: Seq<char>)
    requires
        b.0 == h || b.0 == general_header(),
    ensures
        other_sections(bs.push(b), h) == other_sections(bs, h),
{
    assert(bs.push(b).drop_last() =~= bs);
}

proof fn lemma_others_without(bs: Seq<Blk>, h: Seq<char>)
    ensures
        other_sections(without_header(bs, h), h) == other_sections(bs, h),
    decreases bs.len(),
{
    if bs.len() > 0 {
        let d = bs.drop_last();
        lemma_others_without(d, h);
        let b = bs.last();
        if b.0 != h {
            let w = without_header(d, h);
            assert(w.push(b).drop_last() =~= w);
        }
    }
}

proof fn lemma_others_with_generals(bs: Seq<Blk>, h: Seq<char>, section: Seq<char>, install: bool)
    ensures
        other_sections(with_generals(bs, section, install), h) == other_sections(bs, h),
    decreases bs.len(),
{
    if bs.len() > 0 {
        let d = bs.drop_last();
        lemma_others_with_generals(d, h, section, install);
        let w = with_generals(bs, section, install);
        let wd = with_generals(d, section, install);
        assert(w.drop_last() =~= wd);
    }
}

/// The update keeps everything else: in the written file, the sections other
/// than the rule's own and `[General]` are those of the original text, in
/// order and unchanged. The rule's section is there exactly once, last and
/// with the rule's lines, after installing, and not at all after removing.
pub proof fn kwin_keeps_other_sections(
    content: Seq<char>,
    classid: Seq<char>,
    install: bool,
    app_name: Seq<char>,
    app_id: Seq<char>,
)
    requires
        no_final_cr(content),
        install || no_cr_before_comma(content),
        one_line(classid),
        free_of(classid, ','),
        one_line(app_name),
        one_line(app_id),
    ensures
        ({
            let header = bracketed(section_name(classid));
            let written = ini_blocks(lines(kwin_rules_spec(content, classid, install, app_name, app_id)));
            &&& other_sections(written, header) == other_sections(ini_blocks(lines(content)), header)
            &&& install ==> written.len() >= 1 && written.last() == (header, rule_lines(app_name, app_id))
                && !has_header(written.drop_last(), header)
            &&& !install ==> !has_header(written, header)
        }),
{
    let section = section_name(classid);
    let header = bracketed(section);
    lemma_section_facts(classid);
    lemma_lines_line_ok(content);
    lemma_ini_wf(lines(content));
    let k = kwin_blocks(content, classid, install, app_name, app_id);
    lemma_kwin_blocks_wf(content, classid, install, app_name, app_id);
    lemma_reparse(k);
    let b = ini_blocks(lines(content));
    let b0 = without_header(b, header);
    lemma_without_wf(b, header);
    let b1 = if has_header(b0, general_header()) {
        b0
    } else {
        b0.push((general_header(), Seq::<Seq<char>>::empty()))
    };
    let w = with_generals(b1, section, install);
    lemma_others_without(b, header);
    if !has_header(b0, general_header()) {
        lemma_others_push_skipped(b0, (general_header(), Seq::<Seq<char>>::empty()), header);
    }
    lemma_others_with_generals(b1, header, section, install);
    if install {
        lemma_others_push_skipped(w, (header, rule_lines(app_name, app_id)), header);
        assert(k.drop_last() =~= w);
    }
    // The rule's header occurs nowhere but in the rule's own section.
    assert(!has_header(b1, header)) by {
        if has_header(b1, header) {
            let i = choose|i: int| 0 <= i < b1.len() && #[trigger] b1[i].0 == header;
            if i < b0.len() {
                assert(b1[i] == b0[i]);
            }
        }
    }
    assert(!has_header(w, header)) by {
        lemma_with_generals_shape(b1, section, install);
        if has_header(w, header) {
            let i = choose|i: int| 0 <= i < w.len() && #[trigger] w[i].0 == header;
            assert(b1[i].0 == header);
        }
    }
}

proof fn lemma_split_first_empty(t: Seq<char>, c: char)
    requires
        split(t, c)[0].len() == 0,
    ensures
        t.len() == 0 || t[0] == c,
{
    if t.len() > 0 && t[0] != c {
        lemma_split_nonempty(t.drop_first(), c);
    }
}

/// The pieces of a text that neither ends with a carriage return nor has
/// one before a comma, split at commas, do not end with one either.
proof fn lemma_split_end(v: Seq<char>)
    requires
        no_cr_comma(v),
        !ends_cr(v),
    ensures
        forall|i: int| 0 <= i < split(v, ',').len() ==> !ends_cr(#[trigger] split(v, ',')[i]),
    decreases v.len(),
{
    if v.len() > 0 {
        let t = v.drop_first();
        assert(no_cr_comma(t)) by {
            assert forall|k: int| 0 <= k < t.len() - 1 && t[k] == '\r' implies #[trigger] t[k + 1] != ',' by {
                assert(v[k + 1] == '\r');
                assert(v[(k + 1) + 1] != ',');
            }
        }
        if t.len() > 0 {
            assert(t.last() == v.last());
        }
        lemma_split_end(t);
        lemma_split_nonempty(t, ',');
        let r = split(t, ',');
        if v[0] == ',' {
            assert forall|i: int| 0 <= i < split(v, ',').len() implies !ends_cr(#[trigger] split(v, ',')[i]) by {
                if i > 0 {
                    assert(split(v, ',')[i] == r[i - 1]);
                }
            }
        } else {
            assert forall|i: int| 0 <= i < split(v, ',').len() implies !ends_cr(#[trigger] split(v, ',')[i]) by {
                if i > 0 {
                    assert(split(v, ',')[i] == r[i]);
                } else {
                    let q = seq![v[0]] + r[0];
                    assert(split(v, ',')[0] == q);
                    if r[0].len() > 0 {
                        assert(!ends_cr(r[0]));
                        assert(q.last() == r[0].last());
                    } else {
                        lemma_split_first_empty(t, ',');
                        if t.len() > 0 {
                            let k: int = 0;
                            assert(v[k + 1] == ',');
                        }
                        assert(q.last() == v[0]);
                    }
                }
            }
        }
    }
}

proof fn lemma_nonempty_only_keeps(xs: Seq<Seq<char>>, p: spec_fn(Seq<char>) -> bool)
    requires
        forall|i: int| 0 <= i < xs.len() ==> p(#[trigger] xs[i]),
    ensures
        forall|i: int| 0 <= i < nonempty_only(xs).len() ==> p(#[trigger] nonempty_only(xs)[i]),
    decreases xs.len(),
{
    if xs.len() > 0 {
        let d = xs.drop_last();
        assert forall|i: int| 0 <= i < d.len() implies p(#[trigger] d[i]) by {
            assert(d[i] == xs[i]);
        }
        lemma_nonempty_only_keeps(d, p);
        assert(p(xs[xs.len() - 1]));
        let r = nonempty_only(d);
        if xs.last().len() > 0 {
            assert forall|i: int| 0 <= i < r.push(xs.last()).len() implies p(#[trigger] r.push(xs.last())[i]) by {
                if i < r.len() {
                    assert(r.push(xs.last())[i] == r[i]);
                }
            }
        }
    }
}

/// Lines that do not end with a carriage return and have none before a
/// comma list entries that do not end with one.
proof fn lemma_listed_end(ls: Seq<Seq<char>>)
    requires
        forall|i: int| 0 <= i < ls.len() ==> !ends_cr(#[trigger] ls[i]) && no_cr_comma(ls[i]),
    ensures
        listed_end_ok(ls),
    decreases ls.len(),
{
    if ls.len() > 0 {
        if rules_key().is_prefix_of(ls[0]) {
            let l = ls[0];
            assert(!ends_cr(ls[0]) && no_cr_comma(ls[0]));
            let n = rules_key().len() as int;
            let v = l.skip(n);
            assert(no_cr_comma(v)) by {
                assert forall|k: int| 0 <= k < v.len() - 1 && v[k] == '\r' implies #[trigger] v[k + 1] != ',' by {
                    assert(l[n + k] == '\r');
                    assert(l[(n + k) + 1] != ',');
                }
            }
            if v.len() > 0 {
                assert(v.last() == l.last());
            }
            lemma_split_end(v);
            let p = |x: Seq<char>| !ends_cr(x);
            assert forall|i: int| 0 <= i < split(v, ',').len() implies p(#[trigger] split(v, ',')[i]) by {}
            lemma_nonempty_only_keeps(split(v, ','), p);
            assert(listed_rules(ls) == nonempty_only(split(v, ',')));
            assert forall|i: int| 0 <= i < listed_rules(ls).len() implies !ends_cr(#[trigger] listed_rules(ls)[i]) by {
                assert(p(nonempty_only(split(v, ','))[i]));
            }
        } else {
            let d = ls.drop_first();
            assert forall|i: int| 0 <= i < d.len() implies !ends_cr(#[trigger] d[i]) && no_cr_comma(d[i]) by {
                assert(d[i] == ls[i + 1]);
            }
            lemma_listed_end(d);
            assert(listed_rules(ls) == listed_rules(d));
        }
    } else {
        assert(listed_rules(ls) =~= Seq::<Seq<char>>::empty());
    }
}

/// Every body line of `bs` has no carriage return before a comma.
pub open spec fn bodies_cr_ok(bs: Seq<Blk>) -> bool {
    forall|i: int, j: int| 0 <= i < bs.len() && 0 <= j < bs[i].1.len() ==> no_cr_comma(#[trigger] bs[i].1[j])
}

proof fn lemma_ini_bodies(ls: Seq<Seq<char>>)
    requires
        forall|i: int| 0 <= i < ls.len() ==> no_cr_comma(#[trigger] ls[i]),
    ensures
        bodies_cr_ok(ini_blocks(ls)),
    decreases ls.len(),
{
    if ls.len() > 0 {
        let d = ls.drop_last();
        let l = ls.last();
        assert(no_cr_comma(ls[ls.len() - 1]));
        assert forall|i: int| 0 <= i < d.len() implies no_cr_comma(#[trigger] d[i]) by {
            assert(d[i] == ls[i]);
        }
        lemma_ini_bodies(d);
        crate::kwin::lemma_ini_blocks_nonempty(d);
        let b = ini_blocks(d);
        let r = ini_blocks(ls);
        if is_header_line(l) {
            assert(r == b.push((l, Seq::<Seq<char>>::empty())));
            assert forall|i: int, j: int| 0 <= i < r.len() && 0 <= j < r[i].1.len() implies no_cr_comma(
                #[trigger] r[i].1[j],
            ) by {
                assert(i < b.len());
                assert(r[i] == b[i]);
            }
        } else {
            let k = b.len() - 1;
            assert(r == b.update(k, (b.last().0, b.last().1.push(l))));
            assert forall|i: int, j: int| 0 <= i < r.len() && 0 <= j < r[i].1.len() implies no_cr_comma(
                #[trigger] r[i].1[j],
            ) by {
                if i == k {
                    if j < b[k].1.len() {
                        assert(r[i].1[j] == b[k].1[j]);
                    } else {
                        assert(r[i].1[j] == l);
                    }
                } else {
                    assert(r[i] == b[i]);
                }
            }
        }
    }
}

proof fn lemma_without_bodies(bs: Seq<Blk>, h: Seq<char>)
    requires
        bodies_cr_ok(bs),
    ensures
        bodies_cr_ok(without_header(bs, h)),
    decreases bs.len(),
{
    if bs.len() > 0 {
        let d = bs.drop_last();
        assert(bodies_cr_ok(d)) by {
            assert forall|i: int, j: int| 0 <= i < d.len() && 0 <= j < d[i].1.len() implies no_cr_comma(
                #[trigger] d[i].1[j],
            ) by {
                assert(d[i] == bs[i]);
            }
        }
        lemma_without_bodies(d, h);
        let rd = without_header(d, h);
        if bs.last().0 != h {
            let r = rd.push(bs.last());
            assert forall|i: int, j: int| 0 <= i < r.len() && 0 <= j < r[i].1.len() implies no_cr_comma(
                #[trigger] r[i].1[j],
            ) by {
                if i < rd.len() {
                    assert(r[i] == rd[i]);
                } else {
                    assert(no_cr_comma(bs[bs.len() - 1].1[j]));
                }
            }
        }
    }
}

/// Well-formed sections whose body lines have no carriage return before a
/// comma list no entry that ends with one.
proof fn lemma_generals_end(bs: Seq<Blk>)
    requires
        blocks_wf(bs),
        bodies_cr_ok(bs),
    ensures
        generals_end_ok(bs),
{
    assert forall|i: int| 0 <= i < bs.len() && #[trigger] bs[i].0 == general_header() implies listed_end_ok(
        bs[i].1,
    ) by {
        let ls = bs[i].1;
        assert forall|j: int| 0 <= j < ls.len() implies !ends_cr(#[trigger] ls[j]) && no_cr_comma(ls[j]) by {
            assert(body_line_ok(bs[i].1[j]));
            assert(no_cr_comma(bs[i].1[j]));
        }
        lemma_listed_end(ls);
    }
}

/// The lines of the `[General]` sections of `bs`, in order.
pub open spec fn general_bodies(bs: Seq<Blk>) -> Seq<Seq<Seq<char>>>
    decreases bs.len(),
{
    if bs.len() == 0 {
        Seq::<Seq<Seq<char>>>::empty()
    } else {
        let r = general_bodies(bs.drop_last());
        if bs.last().0 == general_header() {
            r.push(bs.last().1)
        } else {
            r
        }
    }
}

proof fn lemma_bodies_without(bs: Seq<Blk>, h: Seq<char>)
    requires
        h != general_header(),
    ensures
        general_bodies(without_header(bs, h)) == general_bodies(bs),
    decreases bs.len(),
{
    if bs.len() > 0 {
        let d = bs.drop_last();
        lemma_bodies_without(d, h);
        if bs.last().0 != h {
            let w = without_header(d, h);
            assert(w.push(bs.last()).drop_last() =~= w);
        }
    }
}

proof fn lemma_bodies_with_generals(bs: Seq<Blk>, section: Seq<char>, install: bool)
    ensures
        general_bodies(with_generals(bs, section, install)) == general_bodies(bs).map_values(
            |ls: Seq<Seq<char>>| general_lines(ls, section, install),
        ),
    decreases bs.len(),
{
    if bs.len() > 0 {
        let d = bs.drop_last();
        lemma_bodies_with_generals(d, section, install);
        let w = with_generals(bs, section, install);
        assert(w.drop_last() =~= with_generals(d, section, install));
        let g = general_bodies(d);
        if bs.last().0 == general_header() {
            assert(g.push(bs.last().1).map_values(|ls: Seq<Seq<char>>| general_lines(ls, section, install))
                =~= g.map_values(|ls: Seq<Seq<char>>| general_lines(ls, section, install)).push(
                general_lines(bs.last().1, section, install),
            ));
        }
    }
}

proof fn lemma_bodies_push(bs: Seq<Blk>, b: Blk)
    ensures
        general_bodies(bs.push(b)) == (if b.0 == general_header() {
            general_bodies(bs).push(b.1)
        } else {
            general_bodies(bs)
        }),
{
    assert(bs.push(b).drop_last() =~= bs);
}

proof fn lemma_bodies_present(bs: Seq<Blk>)
    ensures
        has_header(bs, general_header()) <==> general_bodies(bs).len() > 0,
    decreases bs.len(),
{
    if bs.len() > 0 {
        let d = bs.drop_last();
        lemma_bodies_present(d);
        if has_header(d, general_header()) {
            let i = choose|i: int| 0 <= i < d.len() && #[trigger] d[i].0 == general_header();
            assert(bs[i].0 == general_header());
        }
        if has_header(bs, general_header()) && bs.last().0 != general_header() {
            let i = choose|i: int| 0 <= i < bs.len() && #[trigger] bs[i].0 == general_header();
            assert(d[i].0 == general_header());
        }
        if bs.last().0 == general_header() {
            assert(bs[bs.len() - 1].0 == general_header());
        }
    } else {
        assert(!has_header(bs, general_header()));
    }
}

proof fn lemma_bodies_lines_ok(bs: Seq<Blk>)
    requires
        forall|i: int, j: int| 0 <= i < bs.len() && 0 <= j < bs[i].1.len() ==> body_line_ok(#[trigger] bs[i].1[j]),
    ensures
        forall|i: int| 0 <= i < general_bodies(bs).len() ==> all_line_ok(#[trigger] general_bodies(bs)[i]),
    decreases bs.len(),
{
    if bs.len() > 0 {
        let d = bs.drop_last();
        assert forall|i: int, j: int| 0 <= i < d.len() && 0 <= j < d[i].1.len() implies body_line_ok(
            #[trigger] d[i].1[j],
        ) by {
            assert(d[i] == bs[i]);
        }
        lemma_bodies_lines_ok(d);
        let g = general_bodies(d);
        if bs.last().0 == general_header() {
            assert forall|i: int| 0 <= i < g.push(bs.last().1).len() implies all_line_ok(
                #[trigger] g.push(bs.last().1)[i],
            ) by {
                if i < g.len() {
                    assert(g.push(bs.last().1)[i] == g[i]);
                } else {
                    assert forall|j: int| 0 <= j < bs.last().1.len() implies line_ok(#[trigger] bs.last().1[j]) by {
                        assert(body_line_ok(bs[bs.len() - 1].1[j]));
                    }
                }
            }
        }
    }
}

proof fn lemma_without_item_contains(xs: Seq<Seq<char>>, id: Seq<char>, x: Seq<char>)
    ensures
        without_item(xs, id).contains(x) <==> (xs.contains(x) && x != id),
    decreases xs.len(),
{
    if xs.len() > 0 {
        let d = xs.drop_last();
        lemma_without_item_contains(d, id, x);
        let r = without_item(d, id);
        if d.contains(x) {
            let k = choose|k: int| 0 <= k < d.len() && d[k] == x;
            assert(xs[k] == x);
        }
        if xs.contains(x) && xs.last() != x {
            let k = choose|k: int| 0 <= k < xs.len() && xs[k] == x;
            assert(d[k] == x);
        }
        if xs.last() != id {
            if r.push(xs.last()).contains(x) && xs.last() != x {
                let k = choose|k: int| 0 <= k < r.push(xs.last()).len() && r.push(xs.last())[k] == x;
                assert(r[k] == x);
            }
            if r.contains(x) {
                let k = choose|k: int| 0 <= k < r.len() && r[k] == x;
                assert(r.push(xs.last())[k] == x);
            }
            assert(r.push(xs.last())[r.len() as int] == xs.last());
        }
        assert(xs[xs.len() - 1] == xs.last());
    }
}

/// Installing or removing a web app's rule keeps every other active rule:
/// each `[General]` section written (one for each that the text had, or one
/// new one when it had none) lists, in order, every id its original listed
/// other than this app's own section, followed by the section when
/// installing; so an id is listed afterwards exactly when it was listed
/// before and is not the section, or it is the section and the app is being
/// installed.
pub proof fn kwin_keeps_active_rules(
    content: Seq<char>,
    classid: Seq<char>,
    install: bool,
    app_name: Seq<char>,
    app_id: Seq<char>,
)
    requires
        no_final_cr(content),
        install || no_cr_before_comma(content),
        one_line(classid),
        free_of(classid, ','),
        one_line(app_name),
        one_line(app_id),
    ensures
        ({
            let section = section_name(classid);
            let before = general_bodies(ini_blocks(lines(content)));
            let old = if before.len() == 0 {
                seq![Seq::<Seq<char>>::empty()]
            } else {
                before
            };
            let after = general_bodies(
                ini_blocks(lines(kwin_rules_spec(content, classid, install, app_name, app_id))),
            );
            &&& after.len() == old.len()
            &&& forall|i: int|
                0 <= i < after.len() ==> listed_rules(#[trigger] after[i]) == without_item(
                    listed_rules(old[i]),
                    section,
                ) + (if install {
                    seq![section]
                } else {
                    Seq::<Seq<char>>::empty()
                })
            &&& forall|i: int, x: Seq<char>|
                0 <= i < after.len() ==> (#[trigger] listed_rules(after[i]).contains(x) <==> ((listed_rules(
                    old[i],
                ).contains(x) && x != section) || (install && x == section)))
        }),
{
    let section = section_name(classid);
    let header = bracketed(section);
    lemma_section_facts(classid);
    lemma_lines_line_ok(content);
    lemma_ini_wf(lines(content));
    let b = ini_blocks(lines(content));
    let k = kwin_blocks(content, classid, install, app_name, app_id);
    lemma_kwin_blocks_wf(content, classid, install, app_name, app_id);
    lemma_reparse(k);
    let b0 = without_header(b, header);
    lemma_without_wf(b, header);
    lemma_bodies_without(b, header);
    lemma_bodies_present(b0);
    let b1 = if has_header(b0, general_header()) {
        b0
    } else {
        b0.push((general_header(), Seq::<Seq<char>>::empty()))
    };
    let before = general_bodies(b);
    let old = if before.len() == 0 {
        seq![Seq::<Seq<char>>::empty()]
    } else {
        before
    };
    if !has_header(b0, general_header()) {
        lemma_bodies_push(b0, (general_header(), Seq::<Seq<char>>::empty()));
        assert(general_bodies(b0) =~= Seq::<Seq<Seq<char>>>::empty());
        assert(Seq::<Seq<Seq<char>>>::empty().push(Seq::<Seq<char>>::empty()) =~= old);
    }
    assert(general_bodies(b1) == old);
    assert(blocks_wf(b1)) by {
        if !has_header(b0, general_header()) {
            assert forall|i: int, j: int| 0 <= i < b1.len() && 0 <= j < b1[i].1.len() implies body_line_ok(
                #[trigger] b1[i].1[j],
            ) by {
                assert(i < b0.len());
                assert(b1[i] == b0[i]);
            }
            assert forall|i: int| 1 <= i < b1.len() implies is_header_line(#[trigger] b1[i].0) && line_ok(
                b1[i].0,
            ) by {
                if i < b0.len() {
                    assert(b1[i] == b0[i]);
                }
            }
        }
    }
    lemma_bodies_lines_ok(b1);
    let w = with_generals(b1, section, install);
    lemma_bodies_with_generals(b1, section, install);
    if install {
        lemma_bodies_push(w, (header, rule_lines(app_name, app_id)));
        assert(k == w.push((header, rule_lines(app_name, app_id))));
    }
    let after = general_bodies(k);
    assert(after == old.map_values(|ls: Seq<Seq<char>>| general_lines(ls, section, install)));
    assert forall|i: int| 0 <= i < after.len() implies listed_rules(#[trigger] after[i]) == without_item(
        listed_rules(old[i]),
        section,
    ) + (if install {
        seq![section]
    } else {
        Seq::<Seq<char>>::empty()
    }) by {
        assert(all_line_ok(old[i]));
        lemma_general_listed(old[i], section, install);
        let kept = without_item(listed_rules(old[i]), section);
        if install {
            assert(kept.push(section) =~= kept + seq![section]);
        } else {
            assert(kept =~= kept + Seq::<Seq<char>>::empty());
        }
    }
    assert forall|i: int, x: Seq<char>| 0 <= i < after.len() implies (#[trigger] listed_rules(after[i]).contains(x)
        <==> ((listed_rules(old[i]).contains(x) && x != section) || (install && x == section))) by {
        let kept = without_item(listed_rules(old[i]), section);
        lemma_without_item_contains(listed_rules(old[i]), section, x);
        let tail = if install {
            seq![section]
        } else {
            Seq::<Seq<char>>::empty()
        };
        let all = kept + tail;
        assert(listed_rules(after[i]) == all);
        if all.contains(x) {
            let j = choose|j: int| 0 <= j < all.len() && all[j] == x;
            if j < kept.len() {
                assert(kept[j] == x);
            }
        }
        if kept.contains(x) {
            let j = choose|j: int| 0 <= j < kept.len() && kept[j] == x;
            assert(all[j] == x);
        }
        if install && x == section {
            assert(all[kept.len() as int] == x);
        }
    }
}

} // verus!
