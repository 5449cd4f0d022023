use serde_json::Value;
use vstd::prelude::*;
use vstd::view::View as ModelOf;

use crate::ids::{next_id, BufferId, IdAllocator, IdCounters, ViewId};
use crate::selection::{normalize_regions, Region, SelectionSet};
use crate::settings::Settings;

verus! {

/// What a view holds.
pub ghost struct ViewModel {
    pub id: ViewId,
    pub buffer_id: BufferId,
    pub name: Option<Seq<char>>,
    pub scratch: bool,
    pub settings: Seq<(Seq<char>, Value)>,
    pub selections: Seq<Region>,
    pub viewport_bits: (u32, u32),
    pub syntax: Option<Seq<char>>,
}

/// A view onto a buffer: its selections and display state. The viewport is kept as the bit
/// patterns of its two `f32` coordinates.
#[derive(Debug, Clone)]
pub struct View {
    id: ViewId,
    buffer_id: BufferId,
    name: Option<String>,
    scratch: bool,
    local_settings: Settings,
    selections: SelectionSet,
    viewport_x: u32,
    viewport_y: u32,
    syntax: Option<String>,
}

pub open spec fn opt_chars(s: Option<String>) -> Option<Seq<char>> {
    match s {
        Some(t) => Some(t@),
        None => None,
    }
}

impl ModelOf for View {
    type V = ViewModel;

    closed spec fn view(&self) -> ViewModel {
        ViewModel {
            id: self.id,
            buffer_id: self.buffer_id,
            name: opt_chars(self.name),
            scratch: self.scratch,
            settings: self.local_settings@,
            selections: self.selections@,
            viewport_bits: (self.viewport_x, self.viewport_y),
            syntax: opt_chars(self.syntax),
        }
    }
}

impl View {
    /// The selection set is in normal form.
    pub closed spec fn wf(&self) -> bool {
        self.selections.wf()
    }

    pub(crate) fn with_id(id: ViewId, buffer_id: BufferId) -> (r: Self)
        ensures
            r@ == (ViewModel {
                id,
                buffer_id,
                name: None,
                scratch: false,
                settings: Seq::empty(),
                selections: Seq::empty(),
                viewport_bits: (0, 0),
                syntax: None,
            }),
            r.wf(),
    {
        View {
            id,
            buffer_id,
            name: None,
            scratch: false,
            local_settings: Settings::new(),
            selections: SelectionSet::new(),
            viewport_x: 0,
            viewport_y: 0,
            syntax: None,
        }
    }

    /// A view onto `buffer_id`, under the next view identifier of `ids`.
    pub fn new(ids: &mut IdAllocator, buffer_id: BufferId) -> (r: Self)
        ensures
            r@ == (ViewModel {
                id: ViewId(old(ids)@.view),
                buffer_id,
                name: None,
                scratch: false,
                settings: Seq::empty(),
                selections: Seq::empty(),
                viewport_bits: (0, 0),
                syntax: None,
            }),
            final(ids)@ == (IdCounters { view: next_id(old(ids)@.view), ..old(ids)@ }),
            r.wf(),
    {
        let id = ViewId::next(ids);
        View::with_id(id, buffer_id)
    }

    pub fn id(&self) -> (r: ViewId)
        ensures
            r == self@.id,
    {
        self.id
    }

    pub fn buffer_id(&self) -> (r: BufferId)
        ensures
            r == self@.buffer_id,
    {
        self.buffer_id
    }

    pub fn name(&self) -> (r: Option<&str>)
        ensures
            r is Some <==> self@.name is Some,
            r matches Some(s) ==> self@.name == Some(s@),
    {
        match &self.name {
            Some(n) => Some(n.as_str()),
            None => None,
        }
    }

    pub fn set_name(&mut self, name: String)
        ensures
            final(self)@ == (ViewModel { name: Some(name@), ..old(self)@ }),
            old(self).wf() ==> final(self).wf(),
    {
        self.name = Some(name);
    }

    pub fn is_scratch(&self) -> (r: bool)
        ensures
            r == self@.scratch,
    {
        self.scratch
    }

    pub fn set_scratch(&mut self, scratch: bool)
        ensures
            final(self)@ == (ViewModel { scratch, ..old(self)@ }),
            old(self).wf() ==> final(self).wf(),
    {
        self.scratch = scratch;
    }

    pub fn settings(&self) -> (r: &Settings)
        ensures
            r@ == self@.settings,
    {
        &self.local_settings
    }

    pub fn settings_mut(&mut self) -> (r: &mut Settings)
        ensures
            r@ == old(self)@.settings,
            final(self)@ == (ViewModel { settings: final(r)@, ..old(self)@ }),
            old(self).wf() ==> final(self).wf(),
    {
        &mut self.local_settings
    }

    pub fn sel(&self) -> (r: &SelectionSet)
        ensures
            r@ == self@.selections,
            self.wf() ==> r.wf(),
    {
        &self.selections
    }

    pub fn sel_mut(&mut self) -> (r: &mut SelectionSet)
        ensures
            r@ == old(self)@.selections,
            final(self)@ == (ViewModel { selections: final(r)@, ..old(self)@ }),
            final(r).wf() ==> final(self).wf(),
    {
        &mut self.selections
    }

    /// Replaces the selections with the single region `region`.
    pub fn set_single_selection(&mut self, region: Region)
        ensures
            final(self)@ == (ViewModel { selections: seq![region], ..old(self)@ }),
            final(self).wf(),
    {
        self.selections.clear();
        self.selections.add(region);
        proof {
            crate::selection::lemma_normalize_single(region);
        }
    }

    /// Replaces the selections with the normal form of `regions`.
    pub fn set_selections(&mut self, regions: Vec<Region>)
        ensures
            final(self)@ == (ViewModel { selections: normalize_regions(regions@), ..old(self)@ }),
            final(self).wf(),
    {
        self.selections.clear();
        self.selections.add_all(regions);
        proof {
            assert(Seq::<Region>::empty() + regions@ == regions@);
        }
    }

    pub fn selection_count(&self) -> (r: usize)
        ensures
            r == self@.selections.len(),
    {
        self.selections.len()
    }

    /// The viewport as the bit patterns of its `f32` coordinates.
    pub fn viewport_bits(&self) -> (r: (u32, u32))
        ensures
            r == self@.viewport_bits,
    {
        (self.viewport_x, self.viewport_y)
    }

    pub fn set_viewport_bits(&mut self, x: u32, y: u32)
        ensures
            final(self)@ == (ViewModel { viewport_bits: (x, y), ..old(self)@ }),
            old(self).wf() ==> final(self).wf(),
    {
        self.viewport_x = x;
        self.viewport_y = y;
    }

    pub fn syntax(&self) -> (r: Option<&str>)
        ensures
            r is Some <==> self@.syntax is Some,
            r matches Some(s) ==> self@.syntax == Some(s@),
    {
        match &self.syntax {
            Some(n) => Some(n.as_str()),
            None => None,
        }
    }

    pub fn set_syntax(&mut self, syntax: String)
        ensures
            final(self)@ == (ViewModel { syntax: Some(syntax@), ..old(self)@ }),
            old(self).wf() ==> final(self).wf(),
    {
        self.syntax = Some(syntax);
    }
}

} // verus!
