//! Which of a completion list's options get rendered, and the glyph that
//! marks each kind of option.
use crate::bytes::str_eq;
use vstd::prelude::*;

verus! {

/// The window of `max` options around the selected one that the list
/// renders (`rangeAroundSelected`): everything when it fits; otherwise the
/// block of `max` that holds `selected`, counted from the top in the upper
/// half and from the bottom in the lower half, so the window never runs off
/// either end.
pub open spec fn rendered_range_spec(total: int, selected: int, max: int) -> (int, int) {
    if total <= max {
        (0, total)
    } else if selected <= total / 2 {
        let off = selected / max;
        (off * max, if (off + 1) * max <= total {
            (off + 1) * max
        } else {
            total
        })
    } else {
        let off = (total - selected + max - 1) / max;
        (total - off * max, total - (off - 1) * max)
    }
}

pub fn rendered_range(total: usize, selected: usize, max: usize) -> (r: (usize, usize))
    requires
        total <= max || (max > 0 && selected < total),
    ensures
        (r.0 as int, r.1 as int) == rendered_range_spec(total as int, selected as int, max as int),
{
    if total <= max {
        return (0, total);
    }
    if selected <= (total >> 1) {
        assert(total >> 1 == total / 2) by (bit_vector);
        let off = selected / max;
        assert(off * max <= selected) by (nonlinear_arith)
            requires
                off == selected / max,
                max > 0,
        ;
        let start = off * max;
        let end = if max <= total - start {
            start + max
        } else {
            total
        };
        assert((off + 1) * max == start + max) by (nonlinear_arith)
            requires
                start == off * max,
        ;
        (start, end)
    } else {
        assert(total >> 1 == total / 2) by (bit_vector);
        let d = total - selected;
        let off = d / max + if d % max != 0 {
            1
        } else {
            0
        };
        assert(off == (d + max - 1) / (max as int) && off >= 1 && off * max >= d && off * max < d + max
            && d < total / 2 + 1) by (nonlinear_arith)
            requires
                off == d / max + if d % max != 0 {
                    1int
                } else {
                    0int
                },
                max > 0,
                d >= 1,
                d == total - selected,
                selected > total / 2,
        ;
        assert(off * max <= total) by (nonlinear_arith)
            requires
                off * max < d + max,
                off * max >= d,
                off >= 1,
                d >= 1,
                max < total,
                off == (d + max - 1) / (max as int),
                max > 0,
                d < total / 2 + 1,
        {
            if off >= 2 {
                assert(off * max >= max + max);
                assert((off - 1) * max < d);
            }
        }
        let span = off * max;
        assert((off - 1) * max == span - max) by (nonlinear_arith)
            requires
                span == off * max,
        ;
        (total - span, total - (span - max))
    }
}

/// The rendered window shows every option when they fit; otherwise exactly
/// `max` consecutive options, within the list, one of them the selected one:
/// a block of `max` counted from the top when the selected option is in the
/// upper half, from the bottom when it is in the lower half.
pub proof fn law_window_holds_selected(total: int, selected: int, max: int)
    requires
        0 <= selected < total,
        0 < max,
    ensures
        total <= max ==> rendered_range_spec(total, selected, max) == (0int, total),
        total > max ==> {
            let r = rendered_range_spec(total, selected, max);
            &&& 0 <= r.0 <= selected
            &&& selected < r.1 <= total
            &&& r.1 - r.0 == max
            &&& selected <= total / 2 ==> r.0 % max == 0
            &&& selected > total / 2 ==> (total - r.1) % max == 0
        },
{
    if total > max {
        if selected <= total / 2 {
            let q = selected / max;
            vstd::arithmetic::div_mod::lemma_fundamental_div_mod(selected, max);
            vstd::arithmetic::div_mod::lemma_mod_pos_bound(selected, max);
            let p = q * max;
            assert(p == max * q) by (nonlinear_arith)
                requires
                    p == q * max,
            ;
            assert(q >= 0) by (nonlinear_arith)
                requires
                    q == selected / max,
                    selected >= 0,
                    max > 0,
            ;
            assert(p + max <= total) by (nonlinear_arith)
                requires
                    p == q * max,
                    selected == max * q + selected % max,
                    0 <= selected % max,
                    q >= 0,
                    max > 0,
                    max < total,
                    selected <= total / 2,
            {
                if q >= 1 {
                    assert(p >= max);
                }
            }
            assert((q + 1) * max == p + max) by (nonlinear_arith)
                requires
                    p == q * max,
            ;
            let r = rendered_range_spec(total, selected, max);
            assert(r.0 == p);
            assert(r.1 == p + max);
            assert(p <= selected);
            assert(selected < p + max);
            vstd::arithmetic::div_mod::lemma_mod_multiples_basic(q, max);
        } else {
            let d = total - selected;
            let e = d + max - 1;
            let off = e / max;
            vstd::arithmetic::div_mod::lemma_fundamental_div_mod(e, max);
            vstd::arithmetic::div_mod::lemma_mod_pos_bound(e, max);
            let p = off * max;
            assert(p >= d && p < d + max) by (nonlinear_arith)
                requires
                    p == off * max,
                    e == max * off + e % max,
                    0 <= e % max < max,
                    e == d + max - 1,
            ;
            assert(p <= total) by (nonlinear_arith)
                requires
                    p == off * max,
                    p >= d,
                    p < d + max,
                    d >= 1,
                    max < total,
                    max > 0,
                    d == total - selected,
                    selected > total / 2,
            {
                if off >= 2 {
                    assert(p >= max + max);
                } else if off <= 0 {
                    assert(p <= 0);
                }
            }
            assert((off - 1) * max == p - max) by (nonlinear_arith)
                requires
                    p == off * max,
            ;
            let r = rendered_range_spec(total, selected, max);
            assert(r.0 == total - p);
            assert(r.1 == total - p + max);
            vstd::arithmetic::div_mod::lemma_mod_multiples_basic(off - 1, max);
            assert(p >= max) by (nonlinear_arith)
                requires
                    p == off * max,
                    p >= 1,
                    max > 0,
            {
                if off <= 0 {
                    assert(off * max <= 0);
                }
            }
        }
    }
}

/// The glyph a completion option of kind `kind` shows, if its kind has one.
pub open spec fn icon_glyph_spec(kind: Seq<char>) -> Option<Seq<char>> {
    if kind == "function"@ || kind == "method"@ {
        Some("ƒ"@)
    } else if kind == "class"@ {
        Some("○"@)
    } else if kind == "interface"@ {
        Some("◌"@)
    } else if kind == "variable"@ {
        Some("𝑥"@)
    } else if kind == "constant"@ {
        Some("𝐶"@)
    } else if kind == "type"@ {
        Some("𝑡"@)
    } else if kind == "enum"@ {
        Some("∪"@)
    } else if kind == "property"@ {
        Some("□"@)
    } else if kind == "keyword"@ {
        Some("🔑\u{fe0e}"@)
    } else if kind == "namespace"@ {
        Some("▢"@)
    } else if kind == "text"@ {
        Some("abc"@)
    } else {
        None
    }
}

pub fn icon_glyph(kind: &str) -> (r: Option<&'static str>)
    ensures
        match r {
            Some(g) => icon_glyph_spec(kind@) == Some(g@),
            None => icon_glyph_spec(kind@) is None,
        },
{
    if str_eq(kind, "function") || str_eq(kind, "method") {
        Some("ƒ")
    } else if str_eq(kind, "class") {
        Some("○")
    } else if str_eq(kind, "interface") {
        Some("◌")
    } else if str_eq(kind, "variable") {
        Some("𝑥")
    } else if str_eq(kind, "constant") {
        Some("𝐶")
    } else if str_eq(kind, "type") {
        Some("𝑡")
    } else if str_eq(kind, "enum") {
        Some("∪")
    } else if str_eq(kind, "property") {
        Some("□")
    } else if str_eq(kind, "keyword") {
        Some("🔑\u{fe0e}")
    } else if str_eq(kind, "namespace") {
        Some("▢")
    } else if str_eq(kind, "text") {
        Some("abc")
    } else {
        None
    }
}

} // verus!
