//! Discovery grouping: the flat scan of the input roots — walked in the
//! order the roots were supplied — is filtered and grouped into the
//! character → tab → location structure the merge works through, with
//! running totals of file count and byte size.

use vstd::prelude::*;

verus! {

/// One file seen while walking the input roots, with its character, its
/// file name (the tab key), whether the name carries an extension, and
/// whether its sibling index file exists.
pub struct ScanEntry {
    pub character: String,
    pub name: String,
    pub path: String,
    pub has_extension: bool,
    pub has_idx: bool,
    pub size: u64,
}

pub struct ScanEntryView {
    pub character: Seq<char>,
    pub name: Seq<char>,
    pub path: Seq<char>,
    pub has_extension: bool,
    pub has_idx: bool,
    pub size: u64,
}

impl View for ScanEntry {
    type V = ScanEntryView;

    open spec fn view(&self) -> ScanEntryView {
        ScanEntryView {
            character: self.character@,
            name: self.name@,
            path: self.path@,
            has_extension: self.has_extension,
            has_idx: self.has_idx,
            size: self.size,
        }
    }
}

/// One source file contributing to a tab.
pub struct Location {
    pub path: String,
    pub size: u64,
}

pub struct LocationView {
    pub path: Seq<char>,
    pub size: u64,
}

impl View for Location {
    type V = LocationView;

    open spec fn view(&self) -> LocationView {
        LocationView { path: self.path@, size: self.size }
    }
}

/// One conversation: its file-name key and its locations in root order.
pub struct TabGroup {
    pub key: String,
    pub locations: Vec<Location>,
}

/// One character and its tabs.
pub struct CharacterGroup {
    pub name: String,
    pub tabs: Vec<TabGroup>,
}

/// The grouped scan: the characters, the log files skipped for lack of an
/// index file, and the totals over all included files.
pub struct Catalog {
    pub characters: Vec<CharacterGroup>,
    pub skipped: Vec<String>,
    pub file_total: u64,
    pub size_total: u64,
}

/// A log file is included when its name has no extension and its index
/// file is present.
pub open spec fn included(e: ScanEntryView) -> bool {
    !e.has_extension && e.has_idx
}

/// A log file is skipped with a warning when its name has no extension
/// but its index file is missing.
pub open spec fn skipped_entry(e: ScanEntryView) -> bool {
    !e.has_extension && !e.has_idx
}

pub open spec fn loc_of(e: ScanEntryView) -> LocationView {
    LocationView { path: e.path, size: e.size }
}

/// The locations of one (character, tab) pair: the included scan entries
/// with that character and that file name, in scan order.
pub open spec fn sel_locs(es: Seq<ScanEntryView>, cname: Seq<char>, key: Seq<char>) -> Seq<
    LocationView>
    decreases es.len(),
{
    if es.len() == 0 {
        Seq::empty()
    } else {
        sel_locs(es.drop_last(), cname, key) + (if included(es.last()) && es.last().character
            == cname && es.last().name == key {
            seq![loc_of(es.last())]
        } else {
            Seq::empty()
        })
    }
}

/// The paths skipped for lack of an index file, in scan order.
pub open spec fn skipped_of(es: Seq<ScanEntryView>) -> Seq<Seq<char>>
    decreases es.len(),
{
    if es.len() == 0 {
        Seq::empty()
    } else {
        skipped_of(es.drop_last()) + (if skipped_entry(es.last()) {
            seq![es.last().path]
        } else {
            Seq::empty()
        })
    }
}

/// How many scan entries are included.
pub open spec fn included_count(es: Seq<ScanEntryView>) -> int
    decreases es.len(),
{
    if es.len() == 0 {
        0
    } else {
        included_count(es.drop_last()) + if included(es.last()) {
            1int
        } else {
            0int
        }
    }
}

/// The total byte size of the included entries.
pub open spec fn sum_sizes(es: Seq<ScanEntryView>) -> int
    decreases es.len(),
{
    if es.len() == 0 {
        0
    } else {
        sum_sizes(es.drop_last()) + if included(es.last()) {
            es.last().size as int
        } else {
            0int
        }
    }
}

/// Saturation at the largest counter value.
pub open spec fn cap64(x: int) -> int {
    if x > u64::MAX {
        u64::MAX as int
    } else {
        x
    }
}

/// The whole grouping contract.
pub open spec fn catalog_of(r: Catalog, es: Seq<ScanEntryView>) -> bool {
    &&& forall|a: int, b: int| 0 <= a < b < r.characters@.len() ==> (#[trigger] r.characters@[
        a]).name@ != (#[trigger] r.characters@[b]).name@
    &&& forall|g: int, a: int, b: int| 0 <= g < r.characters@.len() && 0 <= a < b
        < r.characters@[g].tabs@.len() ==> (#[trigger] r.characters@[g].tabs@[a]).key@ != (
    #[trigger] r.characters@[g].tabs@[b]).key@
    &&& forall|g: int, t: int| 0 <= g < r.characters@.len() && 0 <= t < (#[trigger] r.characters@[
        g]).tabs@.len() ==> (#[trigger] r.characters@[g].tabs@[t]).locations@.map_values(
        |l: Location| l@) == sel_locs(es, r.characters@[g].name@, r.characters@[g].tabs@[t].key@)
    &&& forall|k: int| 0 <= k < es.len() && included(#[trigger] es[k]) ==> exists|g: int, t: int|
        0 <= g < r.characters@.len() && 0 <= t < r.characters@[g].tabs@.len()
            && r.characters@[g].name@ == es[k].character && (#[trigger] r.characters@[g].tabs@[
            t]).key@ == es[k].name
    &&& r.skipped@.map_values(|s: String| s@) == skipped_of(es)
    &&& r.file_total as int == cap64(included_count(es))
    &&& r.size_total as int == cap64(sum_sizes(es))
}

/// Group the scan into the character → tab → location structure: a file is
/// included only when extensionless with its index present; locations keep
/// scan order within their tab; character names and tab keys are unique;
/// every included file lands under its character and tab; files without an
/// index are collected for warnings; and the totals count the included
/// files and their bytes, saturating at the counter's limit.
pub fn collect_logs(entries: &Vec<ScanEntry>) -> (r: Catalog)
    ensures
        catalog_of(r, entries@.map_values(|e: ScanEntry| e@)),
{
    let ghost evs = entries@.map_values(|e: ScanEntry| e@);
    let mut characters: Vec<CharacterGroup> = Vec::new();
    let mut skipped: Vec<String> = Vec::new();
    let mut file_total: u64 = 0;
    let mut size_total: u64 = 0;
    let mut j: usize = 0;
    proof {
        assert(evs.take(0) =~= Seq::<ScanEntryView>::empty());
        assert(skipped@.map_values(|s: String| s@) =~= Seq::<Seq<char>>::empty());
    }
    while j < entries.len()
        invariant
            j <= entries@.len(),
            evs == entries@.map_values(|e: ScanEntry| e@),
            catalog_of(
                Catalog { characters, skipped, file_total, size_total },
                evs.take(j as int),
            ),
        decreases entries@.len() - j,
    {
        let ghost pre = evs.take(j as int);
        let ghost cur = evs.take(j + 1);
        let ghost cat0 = Catalog { characters, skipped, file_total, size_total };
        proof {
            assert(cur.drop_last() =~= pre);
            assert(cur.last() == evs[j as int]);
            assert(evs[j as int] == entries@[j as int]@);
        }
        let e = &entries[j];
        if !e.has_extension && e.has_idx {
            // Find or create the character group.
            let mut gi: usize = 0;
            let mut gfound = false;
            while gi < characters.len() && !gfound
                invariant
                    gi <= characters@.len(),
                    !gfound ==> forall|a: int| 0 <= a < gi ==> (#[trigger] characters@[a]).name@
                        != e.character@,
                    gfound ==> gi < characters@.len() && characters@[gi as int].name@
                        == e.character@,
                decreases characters@.len() - gi + (if gfound { 0int } else { 1int }),
            {
                if characters[gi].name == e.character {
                    gfound = true;
                } else {
                    gi += 1;
                }
            }
            if !gfound {
                characters.push(CharacterGroup { name: e.character.clone(), tabs: Vec::new() });
                gi = characters.len() - 1;
                proof {
                    assert(characters@[gi as int].tabs@.len() == 0);
                }
            }
            // Find or create the tab group.
            let mut ti: usize = 0;
            let mut tfound = false;
            while ti < characters[gi].tabs.len() && !tfound
                invariant
                    gi < characters@.len(),
                    ti <= characters@[gi as int].tabs@.len(),
                    !tfound ==> forall|a: int| 0 <= a < ti ==> (#[trigger] characters@[
                        gi as int].tabs@[a]).key@ != e.name@,
                    tfound ==> ti < characters@[gi as int].tabs@.len() && characters@[
                        gi as int].tabs@[ti as int].key@ == e.name@,
                decreases characters@[gi as int].tabs@.len() - ti + (if tfound {
                    0int
                } else {
                    1int
                }),
            {
                if characters[gi].tabs[ti].key == e.name {
                    tfound = true;
                } else {
                    ti += 1;
                }
            }
            let ghost mid = characters@;
            if !tfound {
                characters[gi].tabs.push(TabGroup { key: e.name.clone(), locations: Vec::new() });
                ti = characters[gi].tabs.len() - 1;
            }
            let ghost mid2 = characters@;
            characters[gi].tabs[ti].locations.push(
                Location { path: e.path.clone(), size: e.size },
            );
            file_total = file_total.saturating_add(1);
            size_total = size_total.saturating_add(e.size);
            proof {
                let cat = Catalog { characters, skipped, file_total, size_total };
                let cname = cur.last().character;
                let key = cur.last().name;
                assert(characters@[gi as int].name@ == cname);
                assert(characters@[gi as int].tabs@[ti as int].key@ == key);
                // Unchanged groups and tabs keep their names, keys and
                // locations; only (gi, ti) gained a location.
                assert(characters@.len() == if gfound {
                    cat0.characters@.len()
                } else {
                    cat0.characters@.len() + 1
                });
                assert forall|g: int| 0 <= g < characters@.len() && g != gi implies
                    #[trigger] characters@[g] == cat0.characters@[g] by {}
                assert forall|t: int| 0 <= t < characters@[gi as int].tabs@.len() && t != ti
                    implies #[trigger] characters@[gi as int].tabs@[t] == mid[gi as int].tabs@[
                    t] by {}
                // The character names are still unique.
                assert forall|a: int, b: int| 0 <= a < b < characters@.len() implies (
                    #[trigger] characters@[a]).name@ != (#[trigger] characters@[b]).name@ by {
                    if !gfound && b == gi {
                        assert(characters@[a] == cat0.characters@[a]);
                        assert(cat0.characters@[a].name@ != cname);
                    }
                }
                // The tab keys of each group are still unique.
                assert forall|g: int, a: int, b: int| 0 <= g < characters@.len() && 0 <= a < b
                    < characters@[g].tabs@.len() implies (#[trigger] characters@[g].tabs@[
                    a]).key@ != (#[trigger] characters@[g].tabs@[b]).key@ by {
                    if g == gi && !tfound && b == ti {
                        assert(characters@[gi as int].tabs@[a] == mid[gi as int].tabs@[a]);
                        assert(mid[gi as int].tabs@[a].key@ != key);
                    }
                }
                // No tab other than (gi, ti) carries this (character, key)
                // pair.
                assert forall|g: int, t: int| 0 <= g < characters@.len() && 0 <= t
                    < characters@[g].tabs@.len() && !(g == gi && t == ti) implies !(
                    characters@[g].name@ == cname && (#[trigger] characters@[g].tabs@[t]).key@
                    == key) by {
                    if g == gi {
                        if characters@[g].tabs@[t].key@ == key {
                            if t < ti {
                                assert(characters@[g].tabs@[t].key@ != characters@[g].tabs@[
                                    ti as int].key@);
                            } else {
                                assert(characters@[g].tabs@[ti as int].key@ != characters@[
                                    g].tabs@[t].key@);
                            }
                        }
                    } else {
                        if characters@[g].name@ == cname {
                            if g < gi {
                                assert(characters@[g].name@ != characters@[gi as int].name@);
                            } else {
                                assert(characters@[gi as int].name@ != characters@[g].name@);
                            }
                        }
                    }
                }
                // The freshly created tab had nothing selected for it yet.
                if !tfound {
                    assert forall|k: int| 0 <= k < pre.len() && included(#[trigger] pre[k])
                        implies !(pre[k].character == cname && pre[k].name == key) by {
                        if pre[k].character == cname && pre[k].name == key {
                            let (g0, t0): (int, int) = choose|g0: int, t0: int| 0 <= g0
                                < cat0.characters@.len() && 0 <= t0
                                < cat0.characters@[g0].tabs@.len()
                                && cat0.characters@[g0].name@ == pre[k].character && (
                            #[trigger] cat0.characters@[g0].tabs@[t0]).key@ == pre[k].name;
                            if gfound {
                                if g0 != gi {
                                    if g0 < gi {
                                        assert(cat0.characters@[g0].name@
                                            != cat0.characters@[gi as int].name@);
                                    } else {
                                        assert(cat0.characters@[gi as int].name@
                                            != cat0.characters@[g0].name@);
                                    }
                                } else {
                                    assert(cat0.characters@[gi as int].tabs@[t0].key@ != key);
                                }
                            } else {
                                assert(cat0.characters@[g0].name@ != cname);
                            }
                        }
                    }
                    lemma_sel_locs_absent(pre, cname, key);
                }
                // Location contents: only (gi, ti) gained this entry's
                // location.
                assert forall|g: int, t: int| 0 <= g < characters@.len() && 0 <= t < (
                    #[trigger] characters@[g]).tabs@.len() implies (#[trigger] characters@[
                    g].tabs@[t]).locations@.map_values(|l: Location| l@) == sel_locs(cur,
                    characters@[g].name@, characters@[g].tabs@[t].key@) by {
                    if g == gi && t == ti {
                        if tfound {
                            assert(characters@[g].tabs@[t].locations@.drop_last().map_values(
                                |l: Location| l@) == sel_locs(pre, characters@[g].name@,
                                characters@[g].tabs@[t].key@)) by {
                                assert(mid2[gi as int].tabs@[ti as int]
                                    == cat0.characters@[gi as int].tabs@[ti as int]);
                                assert(characters@[g].tabs@[t].locations@.drop_last()
                                    =~= cat0.characters@[gi as int].tabs@[
                                    ti as int].locations@);
                            }
                        } else {
                            assert(characters@[g].tabs@[t].locations@.drop_last()
                                =~= Seq::<Location>::empty());
                        }
                        assert(characters@[g].tabs@[t].locations@.map_values(|l: Location| l@)
                            =~= sel_locs(cur, characters@[g].name@, characters@[g].tabs@[
                            t].key@));
                    } else {
                        assert(!(characters@[g].name@ == cname && characters@[g].tabs@[t].key@
                            == key));
                        if g == gi {
                            assert(characters@[g].tabs@[t] == mid[gi as int].tabs@[t]);
                            assert(mid[gi as int].tabs@[t] == cat0.characters@[gi as int].tabs@[
                                t]);
                        } else {
                            assert(characters@[g] == cat0.characters@[g]);
                        }
                        assert(characters@[g].tabs@[t].locations@.map_values(|l: Location| l@)
                            =~= sel_locs(cur, characters@[g].name@, characters@[g].tabs@[
                            t].key@));
                    }
                }
                // Every included entry, the new one included, still has its
                // tab.
                assert forall|k: int| 0 <= k < cur.len() && included(#[trigger] cur[k])
                    implies exists|g: int, t: int| 0 <= g < characters@.len() && 0 <= t
                    < characters@[g].tabs@.len() && characters@[g].name@ == cur[k].character
                    && (#[trigger] characters@[g].tabs@[t]).key@ == cur[k].name by {
                    if k < cur.len() - 1 {
                        assert(cur[k] == pre[k]);
                        let (g0, t0): (int, int) = choose|g0: int, t0: int| 0 <= g0
                            < cat0.characters@.len() && 0 <= t0 < cat0.characters@[
                            g0].tabs@.len() && cat0.characters@[g0].name@ == pre[k].character
                            && (#[trigger] cat0.characters@[g0].tabs@[t0]).key@ == pre[k].name;
                        if g0 == gi {
                            assert(characters@[gi as int].name@
                                == cat0.characters@[gi as int].name@);
                            if tfound && t0 == ti {
                                assert(characters@[gi as int].tabs@[ti as int].key@
                                    == cat0.characters@[gi as int].tabs@[ti as int].key@);
                            } else {
                                assert(characters@[gi as int].tabs@[t0]
                                    == cat0.characters@[gi as int].tabs@[t0]);
                            }
                        } else {
                            assert(characters@[g0] == cat0.characters@[g0]);
                        }
                    } else {
                        assert(characters@[gi as int].name@ == cur[k].character
                            && characters@[gi as int].tabs@[ti as int].key@ == cur[k].name);
                    }
                }
                assert forall|k: int| 0 <= k < cur.len() && included(#[trigger] cur[k])
                    implies exists|g: int, t: int| 0 <= g < cat.characters@.len() && 0 <= t
                    < cat.characters@[g].tabs@.len() && cat.characters@[g].name@
                    == cur[k].character && (#[trigger] cat.characters@[g].tabs@[t]).key@
                    == cur[k].name by {
                    let (g1, t1): (int, int) = choose|g1: int, t1: int| 0 <= g1
                        < characters@.len() && 0 <= t1 < characters@[g1].tabs@.len()
                        && characters@[g1].name@ == cur[k].character && (
                    #[trigger] characters@[g1].tabs@[t1]).key@ == cur[k].name;
                    assert(0 <= g1 < cat.characters@.len() && 0 <= t1 < cat.characters@[
                        g1].tabs@.len() && cat.characters@[g1].name@ == cur[k].character
                        && cat.characters@[g1].tabs@[t1].key@ == cur[k].name);
                }
                assert(cat.skipped@.map_values(|s: String| s@) == skipped_of(cur));
                assert(cat.file_total as int == cap64(included_count(cur)));
                assert(cat.size_total as int == cap64(sum_sizes(cur)));
                assert(catalog_of(cat, cur));
            }
        } else {
            if !e.has_extension {
                skipped.push(e.path.clone());
                proof {
                    assert(skipped@.map_values(|s: String| s@) =~= cat0.skipped@.map_values(
                        |s: String| s@) + seq![cur.last().path]);
                }
            }
            proof {
                let cat = Catalog { characters, skipped, file_total, size_total };
                assert forall|g: int, t: int| 0 <= g < characters@.len() && 0 <= t < (
                    #[trigger] characters@[g]).tabs@.len() implies (#[trigger] characters@[
                    g].tabs@[t]).locations@.map_values(|l: Location| l@) == sel_locs(cur,
                    characters@[g].name@, characters@[g].tabs@[t].key@) by {
                    assert(characters@[g].tabs@[t].locations@.map_values(|l: Location| l@)
                        =~= sel_locs(cur, characters@[g].name@, characters@[g].tabs@[t].key@));
                }
                assert(catalog_of(cat, cur));
            }
        }
        j += 1;
    }
    proof {
        assert(evs.take(evs.len() as int) =~= evs);
    }
    Catalog { characters, skipped, file_total, size_total }
}

/// A (character, tab) pair that no included entry carries selects no
/// location.
proof fn lemma_sel_locs_absent(es: Seq<ScanEntryView>, cname: Seq<char>, key: Seq<char>)
    requires
        forall|k: int| 0 <= k < es.len() && included(#[trigger] es[k]) ==> !(es[k].character
            == cname && es[k].name == key),
    ensures
        sel_locs(es, cname, key).len() == 0,
    decreases es.len(),
{
    if es.len() > 0 {
        assert forall|k: int| 0 <= k < es.drop_last().len() && included(
            #[trigger] es.drop_last()[k]) implies !(es.drop_last()[k].character == cname
            && es.drop_last()[k].name == key) by {
            assert(es.drop_last()[k] == es[k]);
        }
        lemma_sel_locs_absent(es.drop_last(), cname, key);
        assert(es.last() == es[es.len() - 1]);
    }
}

} // verus!
