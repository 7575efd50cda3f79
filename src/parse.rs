use vstd::prelude::*;

use crate::text::{chars_of, lemma_split_on_nonempty, split_on, trim, trim_bounds, trim_end, trim_start};

verus! {

/// One row of a bill of materials.
#[derive(Debug, Clone)]
pub struct PreprocessedBOMEntry {
    name: String,
    description: String,
    mpn: String,
    designators: Vec<String>,
}

/// What a BOM row holds, as sequences of characters.
pub ghost struct EntryView {
    pub name: Seq<char>,
    pub description: Seq<char>,
    pub mpn: Seq<char>,
    pub designators: Seq<Seq<char>>,
}

pub open spec fn texts(v: Seq<String>) -> Seq<Seq<char>> {
    v.map_values(|s: String| s@)
}

impl View for PreprocessedBOMEntry {
    type V = EntryView;

    closed spec fn view(&self) -> EntryView {
        EntryView {
            name: self.name@,
            description: self.description@,
            mpn: self.mpn@,
            designators: texts(self.designators@),
        }
    }
}

/// The rows of a bill of materials, in the order they were read.
#[derive(Debug, Clone)]
pub struct PreprocessedBOM {
    pub bom: Vec<PreprocessedBOMEntry>,
}

pub open spec fn entry_views(v: Seq<PreprocessedBOMEntry>) -> Seq<EntryView> {
    v.map_values(|e: PreprocessedBOMEntry| e@)
}

impl View for PreprocessedBOM {
    type V = Seq<EntryView>;

    open spec fn view(&self) -> Seq<EntryView> {
        entry_views(self.bom@)
    }
}

/// One row of placement (pick-and-place) data: a designator and the value
/// that was placed there.
#[derive(Debug, Clone)]
pub struct CplDataEntry {
    designator: String,
    value: String,
}

pub ghost struct PlacementView {
    pub designator: Seq<char>,
    pub value: Seq<char>,
}

impl View for CplDataEntry {
    type V = PlacementView;

    closed spec fn view(&self) -> PlacementView {
        PlacementView { designator: self.designator@, value: self.value@ }
    }
}

/// The placement rows of one board, which say which designators carry
/// which value.
#[derive(Debug, Clone)]
pub struct CplData {
    parts_map: Vec<CplDataEntry>,
}

pub open spec fn placement_views(v: Seq<CplDataEntry>) -> Seq<PlacementView> {
    v.map_values(|e: CplDataEntry| e@)
}

impl View for CplData {
    type V = Seq<PlacementView>;

    closed spec fn view(&self) -> Seq<PlacementView> {
        placement_views(self.parts_map@)
    }
}

/// The trimmed pieces, without those that trim to nothing, in order.
pub open spec fn named_parts(pieces: Seq<Seq<char>>) -> Seq<Seq<char>>
    decreases pieces.len(),
{
    if pieces.len() == 0 {
        Seq::empty()
    } else {
        let rest = named_parts(pieces.drop_last());
        let t = trim(pieces.last());
        if t.len() > 0 {
            rest.push(t)
        } else {
            rest
        }
    }
}

/// The component names that a comma-joined name field lists.
pub open spec fn sub_names(name: Seq<char>) -> Seq<Seq<char>> {
    named_parts(split_on(name, ','))
}

/// A name is ambiguous when it lists more than one component.
pub open spec fn is_ambiguous(name: Seq<char>) -> bool {
    sub_names(name).len() > 1
}

/// The designators, in placement order, of the rows whose value is `value`.
pub open spec fn designators_for(index: Seq<PlacementView>, value: Seq<char>) -> Seq<Seq<char>>
    decreases index.len(),
{
    if index.len() == 0 {
        Seq::empty()
    } else {
        let rest = designators_for(index.drop_last(), value);
        if index.last().value == value {
            rest.push(index.last().designator)
        } else {
            rest
        }
    }
}

/// The entry that stands for one component name of an ambiguous row.
pub open spec fn entry_for(name: Seq<char>, index: Seq<PlacementView>) -> EntryView {
    EntryView {
        name: name,
        description: Seq::empty(),
        mpn: Seq::empty(),
        designators: designators_for(index, name),
    }
}

/// The entries that replace an ambiguous row named `name`, one per component.
pub open spec fn expansion(name: Seq<char>, index: Seq<PlacementView>) -> Seq<EntryView> {
    sub_names(name).map_values(|s: Seq<char>| entry_for(s, index))
}

/// The names of the ambiguous rows, in order, one per row.
pub open spec fn ambiguous_names(es: Seq<EntryView>) -> Seq<Seq<char>>
    decreases es.len(),
{
    if es.len() == 0 {
        Seq::empty()
    } else {
        let rest = ambiguous_names(es.drop_last());
        if is_ambiguous(es.last().name) {
            rest.push(es.last().name)
        } else {
            rest
        }
    }
}

/// The rows that are not ambiguous, in order.
pub open spec fn unambiguous_entries(es: Seq<EntryView>) -> Seq<EntryView>
    decreases es.len(),
{
    if es.len() == 0 {
        Seq::empty()
    } else {
        let rest = unambiguous_entries(es.drop_last());
        if is_ambiguous(es.last().name) {
            rest
        } else {
            rest.push(es.last())
        }
    }
}

/// The expansions of the ambiguous rows, row after row.
pub open spec fn replacements(es: Seq<EntryView>, index: Seq<PlacementView>) -> Seq<EntryView>
    decreases es.len(),
{
    if es.len() == 0 {
        Seq::empty()
    } else {
        let rest = replacements(es.drop_last(), index);
        if is_ambiguous(es.last().name) {
            rest + expansion(es.last().name, index)
        } else {
            rest
        }
    }
}

/// The rows after resolution: the unambiguous rows as they were, then the
/// rows that replace the ambiguous ones. Every row whose name equals an
/// ambiguous name is itself ambiguous, so all of them go.
pub open spec fn resolved(es: Seq<EntryView>, index: Seq<PlacementView>) -> Seq<EntryView> {
    unambiguous_entries(es) + replacements(es, index)
}


/// The text of `s[from..to]`, where `s` holds the characters of `src`.
fn text_between(src: &str, s: &Vec<char>, from: usize, to: usize) -> (r: String)
    requires
        s@ == src@,
        from <= to <= s.len(),
    ensures
        r@ == s@.subrange(from as int, to as int),
{
    src.substring_char(from, to).to_owned()
}

/// The component names listed in `name`: split on commas, trimmed, empty
/// pieces left out.
pub fn split_name(name: &str) -> (r: Vec<String>)
    ensures
        texts(r@) == sub_names(name@),
{
    let s = chars_of(name);
    let n = s.len();
    let mut r: Vec<String> = Vec::new();
    let mut start: usize = 0;
    let mut i: usize = 0;
    let ghost mut done: Seq<Seq<char>> = Seq::empty();
    assert(s@.take(0) =~= Seq::<char>::empty());
    while i < n
        invariant
            n == s.len(),
            s@ == name@,
            start <= i <= n,
            split_on(s@.take(i as int), ',') == done.push(s@.subrange(start as int, i as int)),
            texts(r@) == named_parts(done),
        decreases n - i,
    {
        let ghost before = split_on(s@.take(i as int), ',');
        assert(s@.take(i + 1).drop_last() =~= s@.take(i as int));
        assert(s@.take(i + 1).last() == s@[i as int]);
        if s[i] == ',' {
            let (a, b) = trim_bounds(&s, start, i);
            proof {
                assert(done.push(s@.subrange(start as int, i as int)).drop_last() =~= done);
            }
            if a < b {
                let t = text_between(name, &s, a, b);
                r.push(t);
                assert(texts(r@) =~= named_parts(done).push(t@));
            }
            proof {
                done = done.push(s@.subrange(start as int, i as int));
            }
            start = i + 1;
            assert(s@.subrange(start as int, i + 1) =~= Seq::<char>::empty());
        } else {
            assert(s@.subrange(start as int, i + 1) =~= s@.subrange(start as int, i as int).push(
                s@[i as int],
            ));
            assert(before.update(before.len() - 1, before.last().push(s@[i as int])) =~= done.push(
                s@.subrange(start as int, i + 1),
            ));
        }
        i = i + 1;
    }
    assert(s@.take(n as int) =~= s@);
    let (a, b) = trim_bounds(&s, start, n);
    proof {
        assert(done.push(s@.subrange(start as int, n as int)).drop_last() =~= done);
    }
    if a < b {
        let t = text_between(name, &s, a, b);
        r.push(t);
        assert(texts(r@) =~= named_parts(done).push(t@));
    }
    r
}

/// Whether `name` lists more than one component.
pub fn name_is_ambiguous(name: &str) -> (r: bool)
    ensures
        r == is_ambiguous(name@),
{
    let parts = split_name(name);
    assert(texts(parts@).len() == parts@.len());
    parts.len() > 1
}


impl PreprocessedBOMEntry {
    pub fn new(name: String, description: String, mpn: String, designators: Vec<String>) -> (r:
        Self)
        ensures
            r@ == (EntryView {
                name: name@,
                description: description@,
                mpn: mpn@,
                designators: texts(designators@),
            }),
    {
        PreprocessedBOMEntry { name, description, mpn, designators }
    }

    pub fn name(&self) -> (r: &str)
        ensures
            r@ == self@.name,
    {
        self.name.as_str()
    }

    pub fn description(&self) -> (r: &str)
        ensures
            r@ == self@.description,
    {
        self.description.as_str()
    }

    pub fn mpn(&self) -> (r: &str)
        ensures
            r@ == self@.mpn,
    {
        self.mpn.as_str()
    }

    pub fn designators(&self) -> (r: &Vec<String>)
        ensures
            texts(r@) == self@.designators,
    {
        &self.designators
    }

    /// A copy of this row.
    pub fn duplicate(&self) -> (r: Self)
        ensures
            r@ == self@,
    {
        let mut designators: Vec<String> = Vec::new();
        let mut i: usize = 0;
        while i < self.designators.len()
            invariant
                i <= self.designators.len(),
                designators@.len() == i,
                forall|k: int| 0 <= k < i ==> designators@[k]@ == self.designators@[k]@,
            decreases self.designators.len() - i,
        {
            designators.push(self.designators[i].clone());
            i = i + 1;
        }
        assert(texts(designators@) =~= texts(self.designators@));
        PreprocessedBOMEntry {
            name: self.name.clone(),
            description: self.description.clone(),
            mpn: self.mpn.clone(),
            designators,
        }
    }
}

impl CplDataEntry {
    pub fn new(designator: String, value: String) -> (r: Self)
        ensures
            r@ == (PlacementView { designator: designator@, value: value@ }),
    {
        CplDataEntry { designator, value }
    }

    pub fn designator(&self) -> (r: &str)
        ensures
            r@ == self@.designator,
    {
        self.designator.as_str()
    }

    pub fn value(&self) -> (r: &str)
        ensures
            r@ == self@.value,
    {
        self.value.as_str()
    }
}

impl CplData {
    /// Placement data made of the given rows, in their order.
    pub fn build(rows: Vec<CplDataEntry>) -> (r: Self)
        ensures
            r@ == placement_views(rows@),
    {
        CplData { parts_map: rows }
    }

    pub fn len(&self) -> (r: usize)
        ensures
            r == self@.len(),
    {
        self.parts_map.len()
    }
}

impl PreprocessedBOM {
    /// The designators of every placement row whose value equals `part_name`,
    /// in placement order; empty where there is none.
    pub fn find_designators_for_name(part_name: &str, cpl_parts: &CplData) -> (r: Vec<String>)
        ensures
            texts(r@) == designators_for(cpl_parts@, part_name@),
    {
        let key = part_name.to_owned();
        let rows = &cpl_parts.parts_map;
        let mut r: Vec<String> = Vec::new();
        let mut i: usize = 0;
        assert(cpl_parts@.take(0) =~= Seq::<PlacementView>::empty());
        while i < rows.len()
            invariant
                i <= rows.len(),
                key@ == part_name@,
                cpl_parts@ == placement_views(rows@),
                texts(r@) == designators_for(cpl_parts@.take(i as int), part_name@),
            decreases rows.len() - i,
        {
            assert(cpl_parts@.take(i + 1).drop_last() =~= cpl_parts@.take(i as int));
            assert(cpl_parts@.take(i + 1).last() == rows@[i as int]@);
            if rows[i].value == key {
                r.push(rows[i].designator.clone());
                assert(texts(r@) =~= designators_for(cpl_parts@.take(i as int), part_name@).push(
                    rows@[i as int]@.designator,
                ));
            }
            i = i + 1;
        }
        assert(cpl_parts@.take(i as int) =~= cpl_parts@);
        r
    }

    /// The names of the ambiguous rows, in order, once per row.
    pub fn find_ambigious_names(&self) -> (r: Vec<String>)
        ensures
            texts(r@) == ambiguous_names(self@),
    {
        let mut r: Vec<String> = Vec::new();
        let mut i: usize = 0;
        assert(self@.take(0) =~= Seq::<EntryView>::empty());
        while i < self.bom.len()
            invariant
                i <= self.bom.len(),
                texts(r@) == ambiguous_names(self@.take(i as int)),
            decreases self.bom.len() - i,
        {
            assert(self@.take(i + 1).drop_last() =~= self@.take(i as int));
            assert(self@.take(i + 1).last() == self.bom@[i as int]@);
            let row = &self.bom[i];
            if name_is_ambiguous(row.name.as_str()) {
                r.push(row.name.clone());
                assert(texts(r@) =~= ambiguous_names(self@.take(i as int)).push(row@.name));
            }
            i = i + 1;
        }
        assert(self@.take(i as int) =~= self@);
        r
    }

    /// The rows that replace one ambiguous row named `name`, appended to `out`.
    fn push_expansion(name: &str, cpl_parts: &CplData, out: &mut Vec<PreprocessedBOMEntry>)
        ensures
            entry_views(final(out)@) == entry_views(old(out)@) + expansion(name@, cpl_parts@),
    {
        let names = split_name(name);
        let ghost subs = sub_names(name@);
        let ghost base = out@;
        let ghost target = expansion(name@, cpl_parts@);
        let mut i: usize = 0;
        while i < names.len()
            invariant
                i <= names.len(),
                texts(names@) == subs,
                subs == sub_names(name@),
                target == expansion(name@, cpl_parts@),
                out@.len() == base.len() + i,
                forall|k: int| 0 <= k < base.len() ==> out@[k] == base[k],
                forall|k: int| 0 <= k < i ==> out@[base.len() + k]@ == target[k],
            decreases names.len() - i,
        {
            let sub = names[i].clone();
            let designators = Self::find_designators_for_name(sub.as_str(), cpl_parts);
            let entry = PreprocessedBOMEntry::new(sub, String::new(), String::new(), designators);
            assert(subs[i as int] == names@[i as int]@);
            assert(entry@ == entry_for(subs[i as int], cpl_parts@));
            out.push(entry);
            i = i + 1;
        }
        assert(entry_views(out@) =~= entry_views(base) + target);
    }

    /// The rows that replace the ambiguous rows: for each ambiguous row, in
    /// order, one row per component that its name lists.
    fn get_replacements_for_ambigious(&self, cpl_parts: &CplData) -> (r: Vec<PreprocessedBOMEntry>)
        ensures
            entry_views(r@) == replacements(self@, cpl_parts@),
    {
        let mut r: Vec<PreprocessedBOMEntry> = Vec::new();
        let mut i: usize = 0;
        assert(self@.take(0) =~= Seq::<EntryView>::empty());
        assert(entry_views(r@) =~= Seq::<EntryView>::empty());
        while i < self.bom.len()
            invariant
                i <= self.bom.len(),
                entry_views(r@) == replacements(self@.take(i as int), cpl_parts@),
            decreases self.bom.len() - i,
        {
            assert(self@.take(i + 1).drop_last() =~= self@.take(i as int));
            assert(self@.take(i + 1).last() == self.bom@[i as int]@);
            let row = &self.bom[i];
            if name_is_ambiguous(row.name.as_str()) {
                Self::push_expansion(row.name.as_str(), cpl_parts, &mut r);
            }
            i = i + 1;
        }
        assert(self@.take(i as int) =~= self@);
        r
    }

    /// Replaces every ambiguous row by one row per component that its name
    /// lists, with the designators that the placement data gives that
    /// component and no description or part number. The unambiguous rows stay,
    /// in order, ahead of the new rows.
    pub fn fix_ambigious_rows(&mut self, cpl_parts: &CplData)
        ensures
            final(self)@ == resolved(old(self)@, cpl_parts@),
    {
        let fixed = self.get_replacements_for_ambigious(cpl_parts);
        let mut kept: Vec<PreprocessedBOMEntry> = Vec::new();
        let mut i: usize = 0;
        assert(self@.take(0) =~= Seq::<EntryView>::empty());
        assert(entry_views(kept@) =~= Seq::<EntryView>::empty());
        while i < self.bom.len()
            invariant
                i <= self.bom.len(),
                entry_views(kept@) == unambiguous_entries(self@.take(i as int)),
            decreases self.bom.len() - i,
        {
            assert(self@.take(i + 1).drop_last() =~= self@.take(i as int));
            assert(self@.take(i + 1).last() == self.bom@[i as int]@);
            let row = &self.bom[i];
            if !name_is_ambiguous(row.name.as_str()) {
                kept.push(row.duplicate());
                assert(entry_views(kept@) =~= unambiguous_entries(self@.take(i as int)).push(row@));
            }
            i = i + 1;
        }
        assert(self@.take(i as int) =~= self@);
        let mut j: usize = 0;
        let ghost prefix = kept@;
        while j < fixed.len()
            invariant
                j <= fixed.len(),
                kept@.len() == prefix.len() + j,
                forall|k: int| 0 <= k < prefix.len() ==> kept@[k] == prefix[k],
                forall|k: int| 0 <= k < j ==> kept@[prefix.len() + k]@ == fixed@[k]@,
            decreases fixed.len() - j,
        {
            kept.push(fixed[j].duplicate());
            j = j + 1;
        }
        assert(entry_views(kept@) =~= entry_views(prefix) + entry_views(fixed@));
        self.bom = kept;
    }
}


// ---- laws of the resolver ----

pub open spec fn lacks(s: Seq<char>, c: char) -> bool {
    forall|i: int| 0 <= i < s.len() ==> s[i] != c
}

proof fn lemma_split_pieces_lack(s: Seq<char>, c: char)
    ensures
        forall|k: int| 0 <= k < split_on(s, c).len() ==> lacks(#[trigger] split_on(s, c)[k], c),
    decreases s.len(),
{
    if s.len() > 0 {
        lemma_split_pieces_lack(s.drop_last(), c);
        lemma_split_on_nonempty(s.drop_last(), c);
        let p = split_on(s.drop_last(), c);
        if s.last() != c {
            assert(lacks(p.last(), c));
            assert(lacks(p.last().push(s.last()), c));
        } else {
            assert(lacks(Seq::<char>::empty(), c));
        }
    } else {
        assert(split_on(s, c) =~= seq![Seq::<char>::empty()]);
    }
}

proof fn lemma_split_without_sep(s: Seq<char>, c: char)
    requires
        lacks(s, c),
    ensures
        split_on(s, c) == seq![s],
    decreases s.len(),
{
    if s.len() > 0 {
        assert(lacks(s.drop_last(), c));
        lemma_split_without_sep(s.drop_last(), c);
        assert(s[s.len() - 1] != c);
        assert(s.drop_last().push(s.last()) =~= s);
        assert(seq![s.drop_last()].update(0, s.drop_last().push(s.last())) =~= seq![s]);
    } else {
        assert(s =~= Seq::<char>::empty());
    }
}

proof fn lemma_trim_lacks(s: Seq<char>, c: char)
    requires
        lacks(s, c),
    ensures
        lacks(trim(s), c),
{
    lemma_trim_start_lacks(s, c);
    lemma_trim_end_lacks(trim_start(s), c);
}

proof fn lemma_trim_start_lacks(s: Seq<char>, c: char)
    requires
        lacks(s, c),
    ensures
        lacks(trim_start(s), c),
    decreases s.len(),
{
    if s.len() > 0 {
        lemma_trim_start_lacks(s.drop_first(), c);
    }
}

proof fn lemma_trim_end_lacks(s: Seq<char>, c: char)
    requires
        lacks(s, c),
    ensures
        lacks(trim_end(s), c),
    decreases s.len(),
{
    if s.len() > 0 {
        lemma_trim_end_lacks(s.drop_last(), c);
    }
}

proof fn lemma_named_parts_lack(ps: Seq<Seq<char>>, c: char)
    requires
        forall|k: int| 0 <= k < ps.len() ==> lacks(#[trigger] ps[k], c),
    ensures
        forall|k: int| 0 <= k < named_parts(ps).len() ==> lacks(#[trigger] named_parts(ps)[k], c),
        named_parts(ps).len() <= ps.len(),
    decreases ps.len(),
{
    if ps.len() > 0 {
        lemma_named_parts_lack(ps.drop_last(), c);
        assert(lacks(ps[ps.len() - 1], c));
        lemma_trim_lacks(ps.last(), c);
    }
}

/// Each component name that an ambiguous row is split into is itself
/// unambiguous.
pub proof fn lemma_sub_names_unambiguous(name: Seq<char>, k: int)
    requires
        0 <= k < sub_names(name).len(),
    ensures
        !is_ambiguous(sub_names(name)[k]),
{
    lemma_split_pieces_lack(name, ',');
    lemma_named_parts_lack(split_on(name, ','), ',');
    let t = sub_names(name)[k];
    assert(lacks(t, ','));
    lemma_split_without_sep(t, ',');
    lemma_named_parts_lack(split_on(t, ','), ',');
}

proof fn lemma_unambiguous_entries_shape(es: Seq<EntryView>)
    ensures
        forall|k: int|
            0 <= k < unambiguous_entries(es).len() ==> !is_ambiguous(
                #[trigger] unambiguous_entries(es)[k].name,
            ),
    decreases es.len(),
{
    if es.len() > 0 {
        lemma_unambiguous_entries_shape(es.drop_last());
        let rest = unambiguous_entries(es.drop_last());
        assert forall|k: int| 0 <= k < unambiguous_entries(es).len() implies !is_ambiguous(
            #[trigger] unambiguous_entries(es)[k].name,
        ) by {
            if k < rest.len() {
                assert(unambiguous_entries(es)[k] == rest[k]);
            }
        }
    }
}

proof fn lemma_replacements_shape(es: Seq<EntryView>, index: Seq<PlacementView>)
    ensures
        forall|k: int|
            0 <= k < replacements(es, index).len() ==> !is_ambiguous(
                #[trigger] replacements(es, index)[k].name,
            ),
    decreases es.len(),
{
    if es.len() > 0 {
        lemma_replacements_shape(es.drop_last(), index);
        let rest = replacements(es.drop_last(), index);
        if is_ambiguous(es.last().name) {
            let ex = expansion(es.last().name, index);
            assert forall|k: int| 0 <= k < replacements(es, index).len() implies !is_ambiguous(
                #[trigger] replacements(es, index)[k].name,
            ) by {
                if k >= rest.len() {
                    assert(replacements(es, index)[k] == ex[k - rest.len()]);
                    lemma_sub_names_unambiguous(es.last().name, k - rest.len());
                }
            }
        }
    }
}

/// After resolution no row is ambiguous: each name lists one component, and no
/// row that had an ambiguous name is left.
pub proof fn law_resolved_unambiguous(es: Seq<EntryView>, index: Seq<PlacementView>)
    ensures
        forall|k: int|
            0 <= k < resolved(es, index).len() ==> !is_ambiguous(
                #[trigger] resolved(es, index)[k].name,
            ),
{
    lemma_unambiguous_entries_shape(es);
    lemma_replacements_shape(es, index);
    let u = unambiguous_entries(es);
    assert forall|k: int| 0 <= k < resolved(es, index).len() implies !is_ambiguous(
        #[trigger] resolved(es, index)[k].name,
    ) by {
        if k < u.len() {
            assert(resolved(es, index)[k] == u[k]);
        } else {
            assert(resolved(es, index)[k] == replacements(es, index)[k - u.len()]);
        }
    }
}

/// Rows of which none is ambiguous come out of resolution unchanged.
pub proof fn law_resolve_unambiguous(es: Seq<EntryView>, index: Seq<PlacementView>)
    requires
        forall|k: int| 0 <= k < es.len() ==> !is_ambiguous(#[trigger] es[k].name),
    ensures
        resolved(es, index) == es,
    decreases es.len(),
{
    if es.len() > 0 {
        let init = es.drop_last();
        assert forall|k: int| 0 <= k < init.len() implies !is_ambiguous(#[trigger] init[k].name) by {
            assert(init[k] == es[k]);
        }
        law_resolve_unambiguous(init, index);
        assert(!is_ambiguous(es[es.len() - 1].name));
        assert(unambiguous_entries(init) + replacements(init, index) == init);
        lemma_replacements_empty(init, index);
        assert(unambiguous_entries(init) =~= init);
        assert(resolved(es, index) =~= init.push(es.last()));
        assert(init.push(es.last()) =~= es);
    } else {
        assert(resolved(es, index) =~= es);
    }
}

proof fn lemma_replacements_empty(es: Seq<EntryView>, index: Seq<PlacementView>)
    requires
        forall|k: int| 0 <= k < es.len() ==> !is_ambiguous(#[trigger] es[k].name),
    ensures
        replacements(es, index) == Seq::<EntryView>::empty(),
    decreases es.len(),
{
    if es.len() > 0 {
        let init = es.drop_last();
        assert forall|k: int| 0 <= k < init.len() implies !is_ambiguous(#[trigger] init[k].name) by {
            assert(init[k] == es[k]);
        }
        lemma_replacements_empty(init, index);
        assert(!is_ambiguous(es[es.len() - 1].name));
    }
}

/// A component name that no placement row carries as its value gets no
/// designators: an empty list, not a failure.
pub proof fn law_unmatched_sub_name(name: Seq<char>, index: Seq<PlacementView>, j: int)
    requires
        0 <= j < sub_names(name).len(),
        forall|i: int| 0 <= i < index.len() ==> (#[trigger] index[i]).value != sub_names(name)[j],
    ensures
        expansion(name, index)[j].designators == Seq::<Seq<char>>::empty(),
{
    lemma_designators_unmatched(index, sub_names(name)[j]);
}

proof fn lemma_designators_unmatched(index: Seq<PlacementView>, value: Seq<char>)
    requires
        forall|i: int| 0 <= i < index.len() ==> (#[trigger] index[i]).value != value,
    ensures
        designators_for(index, value) == Seq::<Seq<char>>::empty(),
    decreases index.len(),
{
    if index.len() > 0 {
        let init = index.drop_last();
        assert forall|i: int| 0 <= i < init.len() implies (#[trigger] init[i]).value != value by {
            assert(init[i] == index[i]);
        }
        lemma_designators_unmatched(init, value);
        assert(index[index.len() - 1].value != value);
    }
}


// ---- rows as read from delimited files ----

/// Why placement data could not be built from its rows.
#[derive(Debug, Clone, Copy, PartialEq, Eq, Structural)]
pub enum LoadError {
    /// No header row, or a required column is not in it.
    MissingHeader,
    /// A row after the header is too short to hold a required cell.
    MissingField,
}

pub open spec fn rows_view(rows: Seq<Vec<String>>) -> Seq<Seq<Seq<char>>> {
    rows.map_values(|r: Vec<String>| texts(r@))
}

/// The last column whose trimmed header is `key`, as a map keyed by header
/// built in column order keeps it.
pub open spec fn column_of(headers: Seq<Seq<char>>, key: Seq<char>) -> Option<int>
    decreases headers.len(),
{
    if headers.len() == 0 {
        None
    } else if trim(headers.last()) == key {
        Some(headers.len() - 1)
    } else {
        column_of(headers.drop_last(), key)
    }
}

/// The trimmed cell of `record` under the header `key`; empty where the column
/// or the cell is missing.
pub open spec fn field_of(headers: Seq<Seq<char>>, record: Seq<Seq<char>>, key: Seq<char>) -> Seq<char> {
    match column_of(headers, key) {
        Some(i) => if i < record.len() {
            trim(record[i])
        } else {
            Seq::empty()
        },
        None => Seq::empty(),
    }
}

/// The BOM row that a record under the given headers stands for.
pub open spec fn bom_row(headers: Seq<Seq<char>>, record: Seq<Seq<char>>) -> EntryView {
    EntryView {
        name: field_of(headers, record, "Name"@),
        description: field_of(headers, record, "Description"@),
        mpn: field_of(headers, record, "Part Number"@),
        designators: sub_names(field_of(headers, record, "Designator"@)),
    }
}

/// Whether a record of a placement file is its header row.
pub open spec fn is_header_row(record: Seq<Seq<char>>) -> bool {
    record.len() > 0 && trim(record[0]) == "Designator"@
}

/// The first header row, if any.
pub open spec fn header_row(records: Seq<Seq<Seq<char>>>) -> Option<int>
    decreases records.len(),
{
    if records.len() == 0 {
        None
    } else {
        match header_row(records.drop_last()) {
            Some(i) => Some(i),
            None => if is_header_row(records.last()) {
                Some(records.len() - 1)
            } else {
                None
            },
        }
    }
}

/// The placement rows read from `rows`, or None where one is too short.
pub open spec fn placement_rows(rows: Seq<Seq<Seq<char>>>, d: int, v: int) -> Option<Seq<PlacementView>>
    decreases rows.len(),
{
    if rows.len() == 0 {
        Some(Seq::empty())
    } else {
        match placement_rows(rows.drop_last(), d, v) {
            None => None,
            Some(done) => if d < rows.last().len() && v < rows.last().len() {
                Some(
                    done.push(
                        PlacementView {
                            designator: trim(rows.last()[d]),
                            value: trim(rows.last()[v]),
                        },
                    ),
                )
            } else {
                None
            },
        }
    }
}

/// Placement data from the records of a placement file: the rows after the
/// first header row, with the trimmed cells under `Designator` and `Comment`.
pub open spec fn placements_of(records: Seq<Seq<Seq<char>>>) -> Result<Seq<PlacementView>, LoadError> {
    match header_row(records) {
        None => Err(LoadError::MissingHeader),
        Some(h) => match (column_of(records[h], "Designator"@), column_of(records[h], "Comment"@)) {
            (Some(d), Some(v)) => match placement_rows(records.skip(h + 1), d, v) {
                Some(ps) => Ok(ps),
                None => Err(LoadError::MissingField),
            },
            _ => Err(LoadError::MissingHeader),
        },
    }
}

/// `s` without leading and trailing whitespace.
pub fn trimmed(s: &str) -> (r: String)
    ensures
        r@ == trim(s@),
{
    let c = chars_of(s);
    let (a, b) = trim_bounds(&c, 0, c.len());
    assert(c@.subrange(0, c.len() as int) =~= c@);
    text_between(s, &c, a, b)
}

/// The last column whose trimmed header is `key`.
fn column_index(headers: &Vec<String>, key: &str) -> (r: Option<usize>)
    ensures
        r matches Some(i) ==> column_of(texts(headers@), key@) == Some(i as int),
        r is None ==> column_of(texts(headers@), key@) is None,
{
    let k = key.to_owned();
    let mut i = headers.len();
    assert(texts(headers@).take(i as int) =~= texts(headers@));
    while i > 0
        invariant
            i <= headers.len(),
            k@ == key@,
            column_of(texts(headers@), key@) == column_of(texts(headers@).take(i as int), key@),
        decreases i,
    {
        let t = trimmed(headers[i - 1].as_str());
        assert(texts(headers@).take(i as int).drop_last() =~= texts(headers@).take(i - 1));
        if t == k {
            return Some(i - 1);
        }
        i = i - 1;
    }
    None
}

/// The trimmed cell of `record` under the header `key`, empty where there is
/// none.
fn extract_field(key: &str, headers: &Vec<String>, record: &Vec<String>) -> (r: String)
    ensures
        r@ == field_of(texts(headers@), texts(record@), key@),
{
    match column_index(headers, key) {
        Some(i) => if i < record.len() {
            trimmed(record[i].as_str())
        } else {
            String::new()
        },
        None => String::new(),
    }
}

impl PreprocessedBOM {
    /// The BOM made of `records`, each read under `headers`.
    pub fn from_records(headers: &Vec<String>, records: &Vec<Vec<String>>) -> (r: Self)
        ensures
            r@ == rows_view(records@).map_values(
                |rec: Seq<Seq<char>>| bom_row(texts(headers@), rec),
            ),
    {
        let mut bom: Vec<PreprocessedBOMEntry> = Vec::new();
        let mut i: usize = 0;
        while i < records.len()
            invariant
                i <= records.len(),
                bom@.len() == i,
                forall|k: int|
                    0 <= k < i ==> (#[trigger] bom@[k])@ == bom_row(
                        texts(headers@),
                        texts(records@[k]@),
                    ),
            decreases records.len() - i,
        {
            let rec = &records[i];
            let name = extract_field("Name", headers, rec);
            let description = extract_field("Description", headers, rec);
            let mpn = extract_field("Part Number", headers, rec);
            let designator_field = extract_field("Designator", headers, rec);
            let designators = split_name(designator_field.as_str());
            bom.push(PreprocessedBOMEntry::new(name, description, mpn, designators));
            i = i + 1;
        }
        let r = PreprocessedBOM { bom };
        assert(r@ =~= rows_view(records@).map_values(
            |rec: Seq<Seq<char>>| bom_row(texts(headers@), rec),
        ));
        r
    }
}

impl CplData {
    /// Placement data from the records of a placement file, which may hold a
    /// title block above its header row.
    pub fn from_records(records: &Vec<Vec<String>>) -> (r: Result<Self, LoadError>)
        ensures
            r matches Ok(c) ==> placements_of(rows_view(records@)) == Ok::<
                Seq<PlacementView>,
                LoadError,
            >(c@),
            r matches Err(e) ==> placements_of(rows_view(records@)) == Err::<
                Seq<PlacementView>,
                LoadError,
            >(e),
    {
        let ghost rv = rows_view(records@);
        let mut h: usize = 0;
        let mut found = false;
        assert(rv.take(0) =~= Seq::<Seq<Seq<char>>>::empty());
        while h < records.len() && !found
            invariant
                h <= records.len(),
                rv == rows_view(records@),
                !found ==> header_row(rv.take(h as int)) is None,
                found ==> h < records.len() && header_row(rv) == Some(h as int),
            decreases records.len() - h + (if found { 0int } else { 1int }),
        {
            assert(rv.take(h + 1).drop_last() =~= rv.take(h as int));
            assert(rv.take(h + 1).last() == rv[h as int]);
            let rec = &records[h];
            if rec.len() > 0 {
                let first = trimmed(rec[0].as_str());
                let key = "Designator".to_owned();
                if first == key {
                    found = true;
                    proof {
                        lemma_header_row_prefix(rv, h as int + 1);
                    }
                }
            }
            if !found {
                h = h + 1;
            }
        }
        if !found {
            assert(rv.take(h as int) =~= rv);
            return Err(LoadError::MissingHeader);
        }
        let header = &records[h];
        let d = match column_index(header, "Designator") {
            Some(d) => d,
            None => return Err(LoadError::MissingHeader),
        };
        let v = match column_index(header, "Comment") {
            Some(v) => v,
            None => return Err(LoadError::MissingHeader),
        };
        let ghost rest = rv.skip(h + 1);
        assert(rv[h as int] == texts(header@));
        let mut parts: Vec<CplDataEntry> = Vec::new();
        let mut j: usize = h + 1;
        assert(rest.take(0) =~= Seq::<Seq<Seq<char>>>::empty());
        while j < records.len()
            invariant
                h < j <= records.len(),
                rv == rows_view(records@),
                rest == rv.skip(h + 1),
                header_row(rv) == Some(h as int),
                column_of(rv[h as int], "Designator"@) == Some(d as int),
                column_of(rv[h as int], "Comment"@) == Some(v as int),
                placement_rows(rest.take(j - h - 1), d as int, v as int) == Some(
                    placement_views(parts@),
                ),
            decreases records.len() - j,
        {
            let ghost before = rest.take(j - h - 1);
            assert(rest.take(j - h).drop_last() =~= before);
            assert(rest.take(j - h).last() == rv[j as int]);
            let rec = &records[j];
            assert(rv[j as int] == texts(rec@));
            assert(rv[j as int].len() == rec@.len());
            if d >= rec.len() || v >= rec.len() {
                proof {
                    assert(placement_rows(rest.take(j - h), d as int, v as int) is None);
                    lemma_placement_rows_prefix(rest, j - h, d as int, v as int);
                }
                return Err(LoadError::MissingField);
            }
            let designator = trimmed(rec[d].as_str());
            let value = trimmed(rec[v].as_str());
            let ghost old_parts = parts@;
            parts.push(CplDataEntry { designator, value });
            assert(placement_views(parts@) =~= placement_views(old_parts).push(parts@.last()@));
            j = j + 1;
        }
        assert(rest.take(j - h - 1) =~= rest);
        Ok(CplData { parts_map: parts })
    }
}

proof fn lemma_header_row_prefix(rs: Seq<Seq<Seq<char>>>, n: int)
    requires
        0 <= n <= rs.len(),
        header_row(rs.take(n)) is Some,
    ensures
        header_row(rs) == header_row(rs.take(n)),
    decreases rs.len() - n,
{
    if n < rs.len() {
        assert(rs.take(n + 1).drop_last() =~= rs.take(n));
        lemma_header_row_prefix(rs, n + 1);
    } else {
        assert(rs.take(n) =~= rs);
    }
}

proof fn lemma_placement_rows_prefix(rs: Seq<Seq<Seq<char>>>, n: int, d: int, v: int)
    requires
        0 <= n <= rs.len(),
        placement_rows(rs.take(n), d, v) is None,
    ensures
        placement_rows(rs, d, v) is None,
    decreases rs.len() - n,
{
    if n < rs.len() {
        assert(rs.take(n + 1).drop_last() =~= rs.take(n));
        lemma_placement_rows_prefix(rs, n + 1, d, v);
    } else {
        assert(rs.take(n) =~= rs);
    }
}

} // verus!
