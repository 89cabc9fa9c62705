use vstd::prelude::*;
use vstd::string::StringExecFns;

use crate::flatten::{FlatRow, FlatTaskTreeElement, row_views};

verus! {

/// The box-drawing glyph that leads a row of the outline.
#[derive(Debug, Clone, Copy, PartialEq, Eq, Structural)]
pub enum Connector {
    /// No glyph: the first row.
    Blank,
    /// `├─`: more of this row's level follows below it.
    Branch,
    /// `└─`: the row closes its level.
    Corner,
}

/// The glyph for a row at `level`, given whether a row stands above it and the
/// level of the row below, if any.
pub open spec fn connector_spec(
    has_above: bool,
    level: nat,
    last_under_parent: bool,
    below: Option<nat>,
) -> Connector {
    if !has_above {
        Connector::Blank
    } else if below is Some && below->0 == level {
        Connector::Branch
    } else if below is Some && below->0 > level && !last_under_parent {
        Connector::Branch
    } else {
        Connector::Corner
    }
}

/// The characters of a glyph.
pub open spec fn glyph_text(c: Connector) -> Seq<char> {
    match c {
        Connector::Blank => ""@,
        Connector::Branch => "├─"@,
        Connector::Corner => "└─"@,
    }
}

/// The depths at which a vertical bar continues after the rows `1..=k` have
/// been passed: a row that is not the last of its siblings opens its depth,
/// a last one closes it.
pub open spec fn open_depths(rows: Seq<FlatRow>, k: int) -> Set<nat>
    decreases k,
{
    if k <= 0 {
        Set::empty()
    } else if rows[k].last_under_parent {
        open_depths(rows, k - 1).remove(rows[k].level)
    } else {
        open_depths(rows, k - 1).insert(rows[k].level)
    }
}

/// One indent slot for depth `d`: a bar where that depth is open, else blanks.
pub open spec fn slot_text(open: Set<nat>, d: nat) -> Seq<char> {
    if open.contains(d) {
        "│    "@
    } else {
        "     "@
    }
}

/// The slots for the depths from 1 up to but excluding `level`.
pub open spec fn slots_text(open: Set<nat>, level: nat) -> Seq<char>
    decreases level,
{
    if level <= 1 {
        seq![]
    } else {
        slots_text(open, (level - 1) as nat) + slot_text(open, (level - 1) as nat)
    }
}

/// The prefix of a row at `level` under the open depths `open`, led by `c`.
pub open spec fn prefix_text(open: Set<nat>, level: nat, c: Connector) -> Seq<char> {
    (if level == 0 {
        ""@
    } else {
        "   "@
    }) + slots_text(open, level) + glyph_text(c) + " "@
}

/// The glyph of row `k`, from the rows next to it.
pub open spec fn row_connector(rows: Seq<FlatRow>, k: int) -> Connector {
    connector_spec(
        k > 0,
        rows[k].level,
        rows[k].last_under_parent,
        if k + 1 < rows.len() {
            Some(rows[k + 1].level)
        } else {
            None
        },
    )
}

/// The prefix of row `k`.
pub open spec fn row_prefix(rows: Seq<FlatRow>, k: int) -> Seq<char> {
    prefix_text(open_depths(rows, k), rows[k].level, row_connector(rows, k))
}

/// The glyph for a row at `level`, given whether a row stands above it and the
/// level of the row below, if any.
pub fn connector_for(
    has_above: bool,
    level: usize,
    last_under_parent: bool,
    below: Option<usize>,
) -> (c: Connector)
    ensures
        c == connector_spec(
            has_above,
            level as nat,
            last_under_parent,
            match below {
                Some(b) => Some(b as nat),
                None => None,
            },
        ),
{
    if !has_above {
        Connector::Blank
    } else {
        match below {
            Some(b) => {
                if b == level {
                    Connector::Branch
                } else if b > level && !last_under_parent {
                    Connector::Branch
                } else {
                    Connector::Corner
                }
            },
            None => Connector::Corner,
        }
    }
}

/// Whether depth `d` is among `open`.
fn is_open(open: &Vec<usize>, d: usize) -> (r: bool)
    ensures
        r == open@.contains(d),
{
    let mut j: usize = 0;
    while j < open.len()
        invariant
            j <= open.len(),
            forall|m: int| 0 <= m < j ==> open@[m] != d,
        decreases open.len() - j,
    {
        if open[j] == d {
            return true;
        }
        j += 1;
    }
    false
}

/// `open` with depth `d` taken out.
fn close_depth(open: &Vec<usize>, d: usize) -> (r: Vec<usize>)
    ensures
        forall|x: usize| r@.contains(x) <==> open@.contains(x) && x != d,
{
    let mut r: Vec<usize> = Vec::new();
    let mut j: usize = 0;
    while j < open.len()
        invariant
            j <= open.len(),
            forall|i: int|
                0 <= i < r@.len() ==> #[trigger] r@[i] != d && open@.subrange(0, j as int).contains(
                    r@[i],
                ),
            forall|m: int| 0 <= m < j && #[trigger] open@[m] != d ==> r@.contains(open@[m]),
        decreases open.len() - j,
    {
        let ghost r0 = r@;
        if open[j] != d {
            r.push(open[j]);
            assert(r@[r@.len() - 1] == open@[j as int]);
        }
        assert forall|i: int| 0 <= i < r@.len() implies #[trigger] r@[i] != d
            && open@.subrange(0, j + 1).contains(r@[i]) by {
            if i < r0.len() {
                assert(r@[i] == r0[i]);
                let m = choose|m: int| 0 <= m < j && open@.subrange(0, j as int)[m] == r0[i];
                assert(open@.subrange(0, j + 1)[m] == r0[i]);
            } else {
                assert(open@.subrange(0, j + 1)[j as int] == r@[i]);
            }
        }
        assert forall|m: int| 0 <= m < j + 1 && #[trigger] open@[m] != d implies r@.contains(
            open@[m],
        ) by {
            if m < j {
                let i = choose|i: int| 0 <= i < r0.len() && r0[i] == open@[m];
                assert(r@[i] == open@[m]);
            } else {
                assert(r@[r@.len() - 1] == open@[m]);
            }
        }
        j += 1;
    }
    assert forall|x: usize| r@.contains(x) <==> open@.contains(x) && x != d by {
        if r@.contains(x) {
            let i = choose|i: int| 0 <= i < r@.len() && r@[i] == x;
            assert(r@[i] != d);
            let m = choose|m: int|
                0 <= m < open@.len() && open@.subrange(0, open@.len() as int)[m] == r@[i];
            assert(open@[m] == x);
        }
        if open@.contains(x) && x != d {
            let m = choose|m: int| 0 <= m < open@.len() && open@[m] == x;
            assert(open@[m] != d);
        }
    }
    r
}

/// Builds the prefix text of a row at `level` under the open depths `open`,
/// which `depths` holds as a set.
fn prefix_of(open: &Vec<usize>, Ghost(depths): Ghost<Set<nat>>, level: usize, c: Connector) -> (r: String)
    requires
        forall|x: usize| #[trigger] open@.contains(x) <==> depths.contains(x as nat),
    ensures
        r@ == prefix_text(depths, level as nat, c),
{
    let mut s = String::new();
    if level != 0 {
        s.append("   ");
    }
    let ghost lead = s@;
    assert(lead =~= (if level == 0 { ""@ } else { "   "@ })) by {
        reveal_strlit("");
    }
    let mut d: usize = 1;
    while d < level
        invariant
            1 <= d,
            d <= level || d == 1,
            s@ == lead + slots_text(depths, d as nat),
            forall|x: usize| #[trigger] open@.contains(x) <==> depths.contains(x as nat),
        decreases level - d,
    {
        let ghost s0 = s@;
        if is_open(open, d) {
            s.append("│    ");
        } else {
            s.append("     ");
        }
        assert(s@ =~= lead + slots_text(depths, (d + 1) as nat));
        d += 1;
    }
    assert(s@ =~= lead + slots_text(depths, level as nat));
    let ghost mid = s@;
    match c {
        Connector::Blank => {
            assert(glyph_text(c) =~= Seq::<char>::empty()) by {
                reveal_strlit("");
            }
        },
        Connector::Branch => {
            s.append("├─");
        },
        Connector::Corner => {
            s.append("└─");
        },
    }
    assert(s@ =~= mid + glyph_text(c));
    s.append(" ");
    assert(s@ =~= prefix_text(depths, level as nat, c));
    s
}

proof fn lemma_open_depths_fit(rows: Seq<FlatTaskTreeElement>, k: int)
    requires
        k < rows.len(),
    ensures
        forall|x: nat| #[trigger] open_depths(row_views(rows), k).contains(x) ==> x <= usize::MAX,
    decreases k,
{
    if k > 0 {
        let views = row_views(rows);
        lemma_open_depths_fit(rows, k - 1);
        assert(views[k] == rows[k]@);
        assert(views[k].level <= usize::MAX);
        assert forall|x: nat| #[trigger] open_depths(views, k).contains(x) implies x
            <= usize::MAX by {
            if x != views[k].level {
                assert(open_depths(views, k - 1).contains(x));
            }
        }
    }
}

/// The prefixes that draw the rows as an outline, one for each row.
///
/// Row `k` is led by `"   "` where its level is above 0, then one slot for each
/// depth from 1 up to its own level, a bar where that depth is still open,
/// then its glyph and a space. Which depths are open is carried from row to
/// row: a row opens its own depth unless it is the last of its siblings, in
/// which case it closes it.
pub fn connector_prefixes(rows: &Vec<FlatTaskTreeElement>) -> (r: Vec<String>)
    ensures
        r@.len() == rows@.len(),
        forall|k: int| 0 <= k < r@.len() ==> #[trigger] r@[k]@ == row_prefix(row_views(rows@), k),
{
    let ghost views = row_views(rows@);
    let mut open: Vec<usize> = Vec::new();
    let mut out: Vec<String> = Vec::new();
    let mut k: usize = 0;
    while k < rows.len()
        invariant
            k <= rows.len(),
            views == row_views(rows@),
            out@.len() == k,
            forall|m: int| 0 <= m < k ==> #[trigger] out@[m]@ == row_prefix(views, m),
            forall|x: usize| #[trigger]
                open@.contains(x) <==> open_depths(views, k - 1).contains(x as nat),
            forall|x: nat| #[trigger] open_depths(views, k - 1).contains(x) ==> x <= usize::MAX,
        decreases rows.len() - k,
    {
        let row = &rows[k];
        assert(views[k as int] == row@);
        if k > 0 {
            if row.last_under_parent {
                open = close_depth(&open, row.level);
            } else if !is_open(&open, row.level) {
                let ghost o0 = open@;
                assert(open_depths(views, k as int) == open_depths(views, k - 1).insert(
                    row.level as nat,
                ));
                open.push(row.level);
                assert forall|x: usize|
                    open_depths(views, k as int).contains(x as nat) implies #[trigger] open@.contains(
                    x,
                ) by {
                    if x == row.level {
                        assert(open@[open@.len() - 1] == x);
                    } else {
                        assert(open_depths(views, k - 1).contains(x as nat));
                        assert(o0.contains(x));
                        let i = choose|i: int| 0 <= i < o0.len() && o0[i] == x;
                        assert(open@[i] == x);
                    }
                }
                assert forall|x: usize| #[trigger] open@.contains(x) implies open_depths(
                    views,
                    k as int,
                ).contains(x as nat) by {
                    if x != row.level {
                        let i = choose|i: int| 0 <= i < open@.len() && open@[i] == x;
                        assert(i < open@.len() - 1);
                        assert(o0[i] == x);
                        assert(o0.contains(x));
                        assert(open_depths(views, k - 1).contains(x as nat));
                    }
                }
            }
        } else {
            assert(open_depths(views, 0) == open_depths(views, -1));
        }
        assert(forall|x: usize| #[trigger]
            open@.contains(x) <==> open_depths(views, k as int).contains(x as nat));
        let below: Option<usize> = if k + 1 < rows.len() {
            assert(views[k + 1] == rows@[k + 1]@);
            Some(rows[k + 1].level)
        } else {
            None
        };
        let c = connector_for(k > 0, row.level, row.last_under_parent, below);
        assert(c == row_connector(views, k as int));
        proof {
            lemma_open_depths_fit(rows@, k as int);
        }
        let text = prefix_of(&open, Ghost(open_depths(views, k as int)), row.level, c);
        out.push(text);
        assert(out@[k as int]@ == row_prefix(views, k as int));
        k += 1;
    }
    out
}

} // verus!
