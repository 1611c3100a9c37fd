//! The context window: named regions of entries, each with a token budget.

use crate::components::{call_views, ToolCall, ToolCallView};
use crate::text::same_text;
use vstd::prelude::*;

verus! {

/// How sensitive a piece of data is, least first.
#[derive(Clone, Copy, Debug, PartialEq, Eq, Structural)]
pub enum TaintLevel {
    Public,
    Internal,
    Private,
}

impl TaintLevel {
    /// The place of a level in the order of sensitivity.
    pub open spec fn rank(self) -> int {
        match self {
            TaintLevel::Public => 0,
            TaintLevel::Internal => 1,
            TaintLevel::Private => 2,
        }
    }

    /// The more sensitive of two levels.
    pub open spec fn max_of(self, other: TaintLevel) -> TaintLevel {
        if self.rank() >= other.rank() {
            self
        } else {
            other
        }
    }

    /// The more sensitive of two levels.
    pub fn raised_to(self, other: TaintLevel) -> (level: TaintLevel)
        ensures
            level == self.max_of(other),
    {
        match (self, other) {
            (TaintLevel::Private, _) => self,
            (_, TaintLevel::Private) => other,
            (TaintLevel::Internal, _) => self,
            (_, TaintLevel::Internal) => other,
            _ => self,
        }
    }
}

/// What an entry of a region is.
pub enum EntryKind {
    /// Text with no part in the conversation's turns.
    Text,
    UserMessage,
    AssistantTurn { tool_calls: Vec<ToolCall> },
    ToolResult { tool_call_id: String, tool_name: String, is_error: bool },
}

/// The model of an [`EntryKind`].
pub enum EntryKindView {
    Text,
    UserMessage,
    AssistantTurn { tool_calls: Seq<ToolCallView> },
    ToolResult { tool_call_id: Seq<char>, tool_name: Seq<char>, is_error: bool },
}

impl View for EntryKind {
    type V = EntryKindView;

    open spec fn view(&self) -> EntryKindView {
        match *self {
            EntryKind::Text => EntryKindView::Text,
            EntryKind::UserMessage => EntryKindView::UserMessage,
            EntryKind::AssistantTurn { tool_calls } => EntryKindView::AssistantTurn {
                tool_calls: call_views(tool_calls@),
            },
            EntryKind::ToolResult { tool_call_id, tool_name, is_error } => {
                EntryKindView::ToolResult {
                    tool_call_id: tool_call_id@,
                    tool_name: tool_name@,
                    is_error,
                }
            },
        }
    }
}

/// One entry of a region.
pub struct Entry {
    pub kind: EntryKind,
    pub content: String,
    pub tokens: usize,
    pub taint: TaintLevel,
}

/// The model of an [`Entry`].
pub struct EntryView {
    pub kind: EntryKindView,
    pub content: Seq<char>,
    pub tokens: nat,
    pub taint: TaintLevel,
}

impl View for Entry {
    type V = EntryView;

    open spec fn view(&self) -> EntryView {
        EntryView {
            kind: self.kind@,
            content: self.content@,
            tokens: self.tokens as nat,
            taint: self.taint,
        }
    }
}

/// How a region ages.
#[derive(Debug)]
pub enum RegionKind {
    Pinned,
    SlidingWindow { max_items: usize },
    Compacting { threshold_tokens: usize },
    CompactHistory { source_region: String },
    Temporary,
    Clearable,
    HashMap,
}

/// A named part of the window with a budget of its own.
pub struct Region {
    pub name: String,
    pub kind: RegionKind,
    pub max_tokens: usize,
    pub current_tokens: usize,
    pub content: Vec<Entry>,
}

/// The model of a [`Region`].
pub struct RegionView {
    pub name: Seq<char>,
    pub kind: RegionKind,
    pub max_tokens: nat,
    pub current_tokens: nat,
    pub content: Seq<EntryView>,
}

/// The models of several entries.
pub open spec fn entry_views(entries: Seq<Entry>) -> Seq<EntryView> {
    Seq::new(entries.len(), |i: int| entries[i]@)
}

impl View for Region {
    type V = RegionView;

    open spec fn view(&self) -> RegionView {
        RegionView {
            name: self.name@,
            kind: self.kind,
            max_tokens: self.max_tokens as nat,
            current_tokens: self.current_tokens as nat,
            content: entry_views(self.content@),
        }
    }
}

/// An agent's context: its regions and a budget over all of them.
pub struct ContextWindow {
    pub regions: Vec<Region>,
    pub max_tokens: usize,
    pub current_tokens: usize,
    pub tracks_taint: bool,
}

/// The model of a [`ContextWindow`].
pub struct WindowView {
    pub regions: Seq<RegionView>,
    pub max_tokens: nat,
    pub current_tokens: nat,
    pub tracks_taint: bool,
}

/// The models of several regions.
pub open spec fn region_views(regions: Seq<Region>) -> Seq<RegionView> {
    Seq::new(regions.len(), |i: int| regions[i]@)
}

impl View for ContextWindow {
    type V = WindowView;

    open spec fn view(&self) -> WindowView {
        WindowView {
            regions: region_views(self.regions@),
            max_tokens: self.max_tokens as nat,
            current_tokens: self.current_tokens as nat,
            tracks_taint: self.tracks_taint,
        }
    }
}

/// Why an entry was not added.
#[derive(Clone, Copy, Debug, PartialEq, Eq, Structural)]
pub enum WindowError {
    UnknownRegion,
    TokenBudgetExceeded,
}

/// The position of the first region with this name.
pub open spec fn region_at(regions: Seq<RegionView>, name: Seq<char>) -> Option<int>
    decreases regions.len(),
{
    if regions.len() == 0 {
        None
    } else {
        match region_at(regions.drop_last(), name) {
            Some(i) => Some(i),
            None => if regions.last().name == name {
                Some(regions.len() - 1)
            } else {
                None
            },
        }
    }
}

/// The tokens of all regions together.
pub open spec fn token_sum(regions: Seq<RegionView>) -> nat
    decreases regions.len(),
{
    if regions.len() == 0 {
        0
    } else {
        token_sum(regions.drop_last()) + regions.last().current_tokens
    }
}

/// A token count as a machine word holds it.
pub open spec fn capped(n: nat) -> nat {
    if n <= usize::MAX {
        n
    } else {
        usize::MAX as nat
    }
}

impl RegionView {
    /// The region without its entries.
    pub open spec fn cleared(self) -> RegionView {
        RegionView { current_tokens: 0, content: Seq::empty(), ..self }
    }

    /// Whether the region's budget has room for this many more tokens.
    pub open spec fn fits(self, tokens: nat) -> bool {
        self.current_tokens + tokens <= self.max_tokens
    }

    /// The region with one more entry.
    pub open spec fn with_entry(self, entry: EntryView) -> RegionView {
        RegionView {
            current_tokens: self.current_tokens + entry.tokens,
            content: self.content.push(entry),
            ..self
        }
    }
}

impl WindowView {
    /// The window with its token count taken anew from its regions.
    pub open spec fn recounted(self) -> WindowView {
        WindowView { current_tokens: capped(token_sum(self.regions)), ..self }
    }

    /// The window after an entry is added to a region: refused outright where the
    /// region is unknown or its budget has no room for the whole entry.
    pub open spec fn adding(self, name: Seq<char>, entry: EntryView) -> Result<
        WindowView,
        WindowError,
    > {
        match region_at(self.regions, name) {
            None => Err(WindowError::UnknownRegion),
            Some(i) => if self.regions[i].fits(entry.tokens) {
                Ok(
                    WindowView {
                        regions: self.regions.update(i, self.regions[i].with_entry(entry)),
                        ..self
                    }.recounted(),
                )
            } else {
                Err(WindowError::TokenBudgetExceeded)
            },
        }
    }

    /// The window after an attempt to add an entry, whatever came of it.
    pub open spec fn offered(self, name: Seq<char>, entry: EntryView) -> WindowView {
        match self.adding(name, entry) {
            Ok(after) => after,
            Err(_) => self,
        }
    }

    /// Whether there is a region with this name.
    pub open spec fn has_region(self, name: Seq<char>) -> bool {
        region_at(self.regions, name) is Some
    }

    /// The room left in a region; none where there is no such region.
    pub open spec fn room_in(self, name: Seq<char>) -> nat {
        match region_at(self.regions, name) {
            None => 0,
            Some(i) => if self.regions[i].current_tokens <= self.regions[i].max_tokens {
                (self.regions[i].max_tokens - self.regions[i].current_tokens) as nat
            } else {
                0
            },
        }
    }
}

/// A found region has the name that was asked for.
pub proof fn lemma_region_at(regions: Seq<RegionView>, name: Seq<char>)
    ensures
        match region_at(regions, name) {
            Some(i) => 0 <= i < regions.len() && regions[i].name == name && forall|j: int|
                0 <= j < i ==> (#[trigger] regions[j]).name != name,
            None => forall|j: int| 0 <= j < regions.len() ==> (#[trigger] regions[j]).name != name,
        },
    decreases regions.len(),
{
    if regions.len() > 0 {
        lemma_region_at(regions.drop_last(), name);
        assert forall|j: int| 0 <= j < regions.len() - 1 implies regions.drop_last()[j]
            == #[trigger] regions[j] by {}
    }
}

impl Region {
    /// An empty region.
    pub fn new(name: String, kind: RegionKind, max_tokens: usize) -> (region: Region)
        ensures
            region@ == (RegionView {
                name: name@,
                kind,
                max_tokens: max_tokens as nat,
                current_tokens: 0,
                content: Seq::empty(),
            }),
    {
        let region = Region { name, kind, max_tokens, current_tokens: 0, content: Vec::new() };
        proof {
            assert(region@.content =~= Seq::empty());
        }
        region
    }

    /// Drops every entry.
    pub fn clear(&mut self)
        ensures
            final(self)@ == old(self)@.cleared(),
    {
        self.content = Vec::new();
        self.current_tokens = 0;
        proof {
            assert(self@.content =~= Seq::empty());
        }
    }

    /// Adds an entry, unless the budget has no room for all of it.
    pub fn add(&mut self, entry: Entry) -> (added: Result<(), WindowError>)
        ensures
            old(self)@.fits(entry@.tokens) ==> added is Ok && final(self)@
                == old(self)@.with_entry(entry@),
            !old(self)@.fits(entry@.tokens) ==> added == Err::<(), _>(
                WindowError::TokenBudgetExceeded,
            ) && final(self)@ == old(self)@,
    {
        if self.current_tokens > self.max_tokens || entry.tokens > self.max_tokens
            - self.current_tokens {
            return Err(WindowError::TokenBudgetExceeded);
        }
        self.current_tokens = self.current_tokens + entry.tokens;
        self.content.push(entry);
        proof {
            assert(self@.content =~= old(self)@.content.push(entry@));
        }
        Ok(())
    }
}

impl ContextWindow {
    /// A window without regions.
    pub fn new(max_tokens: usize) -> (window: ContextWindow)
        ensures
            window@ == (WindowView {
                regions: Seq::empty(),
                max_tokens: max_tokens as nat,
                current_tokens: 0,
                tracks_taint: false,
            }),
    {
        let window = ContextWindow {
            regions: Vec::new(),
            max_tokens,
            current_tokens: 0,
            tracks_taint: false,
        };
        proof {
            assert(window@.regions =~= Seq::empty());
        }
        window
    }

    /// Adds a region behind the others.
    pub fn add_region(&mut self, region: Region)
        ensures
            final(self)@ == (WindowView { regions: old(self)@.regions.push(region@), ..old(self)@ }),
    {
        self.regions.push(region);
        proof {
            assert(self@.regions =~= old(self)@.regions.push(region@));
        }
    }

    /// The position of the first region with this name.
    pub fn region_index(&self, name: &str) -> (found: Option<usize>)
        ensures
            found is Some <==> region_at(self@.regions, name@) is Some,
            found is Some ==> region_at(self@.regions, name@) == Some(found->0 as int) && found->0
                < self.regions@.len(),
    {
        let mut i: usize = 0;
        proof {
            assert(self@.regions.take(0) =~= Seq::empty());
        }
        while i < self.regions.len()
            invariant
                i <= self.regions@.len(),
                region_at(self@.regions.take(i as int), name@) is None,
            decreases self.regions.len() - i,
        {
            proof {
                assert(self@.regions.take(i + 1).drop_last() =~= self@.regions.take(i as int));
            }
            if same_text(self.regions[i].name.as_str(), name) {
                proof {
                    lemma_region_at(self@.regions.take(i as int), name@);
                    lemma_region_at(self@.regions, name@);
                    assert forall|j: int| 0 <= j < i implies (#[trigger] self@.regions[j]).name
                        != name@ by {
                        assert(self@.regions.take(i as int)[j] == self@.regions[j]);
                    }
                    assert(self@.regions[i as int].name == name@);
                }
                return Some(i);
            }
            i = i + 1;
        }
        proof {
            assert(self@.regions.take(i as int) =~= self@.regions);
        }
        None
    }

    /// The region with this name.
    pub fn get_region(&self, name: &str) -> (found: Option<&Region>)
        ensures
            match found {
                Some(region) => region_at(self@.regions, name@) is Some && region@
                    == self@.regions[region_at(self@.regions, name@)->0],
                None => region_at(self@.regions, name@) is None,
            },
    {
        match self.region_index(name) {
            Some(i) => Some(&self.regions[i]),
            None => None,
        }
    }

    /// The tokens of all regions together.
    pub fn calculate_tokens(&self) -> (total: usize)
        ensures
            total == capped(token_sum(self@.regions)),
    {
        let mut total: usize = 0;
        let mut i: usize = 0;
        proof {
            assert(self@.regions.take(0) =~= Seq::empty());
        }
        while i < self.regions.len()
            invariant
                i <= self.regions@.len(),
                total == capped(token_sum(self@.regions.take(i as int))),
            decreases self.regions.len() - i,
        {
            proof {
                assert(self@.regions.take(i + 1).drop_last() =~= self@.regions.take(i as int));
            }
            total = total.saturating_add(self.regions[i].current_tokens);
            i = i + 1;
        }
        proof {
            assert(self@.regions.take(i as int) =~= self@.regions);
        }
        total
    }

    /// Takes the token count anew from the regions.
    pub fn recount(&mut self)
        ensures
            final(self)@ == old(self)@.recounted(),
    {
        self.current_tokens = self.calculate_tokens();
    }

    /// Clears the region at this position; the token count is left as it was.
    pub fn clear_at(&mut self, i: usize)
        requires
            i < old(self)@.regions.len(),
        ensures
            final(self)@ == (WindowView {
                regions: old(self)@.regions.update(
                    i as int,
                    old(self)@.regions[i as int].cleared(),
                ),
                ..old(self)@
            }),
    {
        self.regions[i].clear();
        proof {
            assert(self@.regions =~= old(self)@.regions.update(
                i as int,
                old(self)@.regions[i as int].cleared(),
            ));
        }
    }

    /// Adds an entry to the region with this name.
    pub fn add(&mut self, region: &str, entry: Entry) -> (added: Result<(), WindowError>)
        ensures
            match old(self)@.adding(region@, entry@) {
                Ok(after) => added is Ok && final(self)@ == after,
                Err(e) => added == Err::<(), _>(e) && final(self)@ == old(self)@,
            },
    {
        match self.region_index(region) {
            None => Err(WindowError::UnknownRegion),
            Some(i) => {
                let ghost before = self@;
                let added = self.regions[i].add(entry);
                match added {
                    Ok(()) => {
                        proof {
                            assert(self@.regions =~= before.regions.update(
                                i as int,
                                before.regions[i as int].with_entry(entry@),
                            ));
                        }
                        self.recount();
                        Ok(())
                    },
                    Err(e) => {
                        proof {
                            assert(self@.regions =~= before.regions);
                        }
                        Err(e)
                    },
                }
            },
        }
    }

    /// Adds an entry of the given kind, tracked as public.
    pub fn add_typed_entry(
        &mut self,
        region: &str,
        kind: EntryKind,
        content: String,
        tokens: usize,
    ) -> (added: Result<(), WindowError>)
        ensures
            match old(self)@.adding(region@, public_entry(kind@, content@, tokens as nat)) {
                Ok(after) => added is Ok && final(self)@ == after,
                Err(e) => added == Err::<(), _>(e) && final(self)@ == old(self)@,
            },
    {
        self.add(region, Entry { kind, content, tokens, taint: TaintLevel::Public })
    }
}

/// An entry that carries no sensitive data.
pub open spec fn public_entry(kind: EntryKindView, content: Seq<char>, tokens: nat) -> EntryView {
    EntryView { kind, content, tokens, taint: TaintLevel::Public }
}

/// The most sensitive level among some entries.
pub open spec fn entries_taint(entries: Seq<EntryView>) -> TaintLevel
    decreases entries.len(),
{
    if entries.len() == 0 {
        TaintLevel::Public
    } else {
        entries_taint(entries.drop_last()).max_of(entries.last().taint)
    }
}

/// The most sensitive level among the entries of some regions.
pub open spec fn regions_taint(regions: Seq<RegionView>) -> TaintLevel
    decreases regions.len(),
{
    if regions.len() == 0 {
        TaintLevel::Public
    } else {
        regions_taint(regions.drop_last()).max_of(entries_taint(regions.last().content))
    }
}

impl Region {
    /// The most sensitive level among the region's entries.
    pub fn taint(&self) -> (level: TaintLevel)
        ensures
            level == entries_taint(self@.content),
    {
        let mut level = TaintLevel::Public;
        let mut i: usize = 0;
        proof {
            assert(self@.content.take(0) =~= Seq::empty());
        }
        while i < self.content.len()
            invariant
                i <= self.content@.len(),
                level == entries_taint(self@.content.take(i as int)),
            decreases self.content.len() - i,
        {
            proof {
                assert(self@.content.take(i + 1).drop_last() =~= self@.content.take(i as int));
            }
            level = level.raised_to(self.content[i].taint);
            i = i + 1;
        }
        proof {
            assert(self@.content.take(i as int) =~= self@.content);
        }
        level
    }
}

impl ContextWindow {
    /// Turns on taint tracking.
    pub fn enable_taint_tracking(&mut self)
        ensures
            final(self)@ == (WindowView { tracks_taint: true, ..old(self)@ }),
    {
        self.tracks_taint = true;
    }

    /// The most sensitive level anywhere in the window, when it is tracked.
    pub fn overall_taint(&self) -> (level: Option<TaintLevel>)
        ensures
            level == if self@.tracks_taint {
                Some(regions_taint(self@.regions))
            } else {
                None
            },
    {
        if !self.tracks_taint {
            return None;
        }
        let mut level = TaintLevel::Public;
        let mut i: usize = 0;
        proof {
            assert(self@.regions.take(0) =~= Seq::empty());
        }
        while i < self.regions.len()
            invariant
                i <= self.regions@.len(),
                level == regions_taint(self@.regions.take(i as int)),
            decreases self.regions.len() - i,
        {
            proof {
                assert(self@.regions.take(i + 1).drop_last() =~= self@.regions.take(i as int));
            }
            level = level.raised_to(self.regions[i].taint());
            i = i + 1;
        }
        proof {
            assert(self@.regions.take(i as int) =~= self@.regions);
        }
        Some(level)
    }

    /// Adds plain text, tracked as public.
    pub fn add_to_region(&mut self, region: &str, content: String, tokens: usize) -> (added: Result<
        (),
        WindowError,
    >)
        ensures
            match old(self)@.adding(
                region@,
                public_entry(EntryKindView::Text, content@, tokens as nat),
            ) {
                Ok(after) => added is Ok && final(self)@ == after,
                Err(e) => added == Err::<(), _>(e) && final(self)@ == old(self)@,
            },
    {
        self.add_typed_entry(region, EntryKind::Text, content, tokens)
    }

    /// Adds an entry of the given kind that carries data of the given level.
    pub fn add_typed_tainted_to_region(
        &mut self,
        region: &str,
        kind: EntryKind,
        content: String,
        tokens: usize,
        taint: TaintLevel,
    ) -> (added: Result<(), WindowError>)
        ensures
            match old(self)@.adding(
                region@,
                EntryView { kind: kind@, content: content@, tokens: tokens as nat, taint },
            ) {
                Ok(after) => added is Ok && final(self)@ == after,
                Err(e) => added == Err::<(), _>(e) && final(self)@ == old(self)@,
            },
    {
        self.add(region, Entry { kind, content, tokens, taint })
    }
}

/// Whether every region is within its budget.
pub open spec fn within_budgets(w: WindowView) -> bool {
    forall|i: int|
        0 <= i < w.regions.len() ==> (#[trigger] w.regions[i]).current_tokens
            <= w.regions[i].max_tokens
}

/// Adding an entry never takes a region over its budget, and touches no region but
/// the one that is named: the entry stands behind those that were there, or nothing
/// changes at all.
pub proof fn law_adding_keeps_budgets(w: WindowView, name: Seq<char>, entry: EntryView)
    requires
        within_budgets(w),
    ensures
        within_budgets(w.offered(name, entry)),
        w.offered(name, entry).regions.len() == w.regions.len(),
        forall|i: int|
            0 <= i < w.regions.len() && (#[trigger] w.regions[i]).name != name ==> w.offered(
                name,
                entry,
            ).regions[i] == w.regions[i],
        w.adding(name, entry) is Err ==> w.offered(name, entry) == w,
{
    lemma_region_at(w.regions, name);
}

/// The more sensitive of several levels does not depend on how they are grouped.
proof fn lemma_max_of(a: TaintLevel, b: TaintLevel, c: TaintLevel)
    ensures
        a.max_of(b).max_of(c) == a.max_of(c).max_of(b),
        a.max_of(b.max_of(c)) == a.max_of(b).max_of(c),
{
}

/// A region's new entry raises the level of the regions to its own, and no further.
proof fn lemma_taint_of_update(regions: Seq<RegionView>, i: int, entry: EntryView)
    requires
        0 <= i < regions.len(),
    ensures
        regions_taint(regions.update(i, regions[i].with_entry(entry))) == regions_taint(
            regions,
        ).max_of(entry.taint),
    decreases regions.len(),
{
    let after = regions.update(i, regions[i].with_entry(entry));
    let n = regions.len() - 1;
    let last = entries_taint(regions.last().content);
    if i == n {
        assert(after.drop_last() =~= regions.drop_last());
        let content = regions[i].content;
        assert(content.push(entry).drop_last() =~= content);
        lemma_max_of(regions_taint(regions.drop_last()), last, entry.taint);
    } else {
        assert(after.drop_last() =~= regions.drop_last().update(i, regions[i].with_entry(entry)));
        lemma_taint_of_update(regions.drop_last(), i, entry);
        lemma_max_of(regions_taint(regions.drop_last()), entry.taint, last);
    }
}

/// Sensitive data that enters a window is seen: the window's level is then that of the
/// entry where it was lower, and never drops because of an entry.
pub proof fn law_taint_is_carried(w: WindowView, name: Seq<char>, entry: EntryView)
    ensures
        w.adding(name, entry) is Ok ==> regions_taint(w.offered(name, entry).regions)
            == regions_taint(w.regions).max_of(entry.taint),
        regions_taint(w.offered(name, entry).regions).rank() >= regions_taint(w.regions).rank(),
{
    lemma_region_at(w.regions, name);
    if w.adding(name, entry) is Ok {
        lemma_taint_of_update(w.regions, region_at(w.regions, name)->0, entry);
    }
}

/// What adding an entry does: it stands behind the others of the first region with the name,
/// whose count grows by its tokens, and nothing else of any region changes; the window's count
/// is that of its regions together. It is refused where there is no such region or its budget
/// has no room for it.
pub proof fn law_added_entry_is_the_last(w: WindowView, name: Seq<char>, entry: EntryView, i: int)
    requires
        0 <= i < w.regions.len(),
        w.regions[i].name == name,
        forall|j: int| 0 <= j < i ==> (#[trigger] w.regions[j]).name != name,
    ensures
        w.adding(name, entry) is Ok <==> w.regions[i].current_tokens + entry.tokens
            <= w.regions[i].max_tokens,
        w.adding(name, entry) is Err ==> w.adding(name, entry) == Err::<WindowView, WindowError>(
            WindowError::TokenBudgetExceeded,
        ),
        w.adding(name, entry) is Ok ==> {
            let after = w.adding(name, entry)->Ok_0;
            &&& after.regions.len() == w.regions.len()
            &&& after.regions[i].content == w.regions[i].content.push(entry)
            &&& after.regions[i].current_tokens == w.regions[i].current_tokens + entry.tokens
            &&& after.regions[i].name == name
            &&& after.regions[i].kind == w.regions[i].kind
            &&& after.regions[i].max_tokens == w.regions[i].max_tokens
            &&& after.max_tokens == w.max_tokens
            &&& after.tracks_taint == w.tracks_taint
            &&& token_sum(after.regions) <= usize::MAX ==> after.current_tokens == token_sum(
                after.regions,
            )
            &&& forall|j: int|
                0 <= j < w.regions.len() && j != i ==> #[trigger] after.regions[j] == w.regions[j]
        },
        (w.adding(name, entry) is Ok ==> w.offered(name, entry) == w.adding(name, entry)->Ok_0),
        (w.adding(name, entry) is Err ==> w.offered(name, entry) == w),
{
    lemma_region_at(w.regions, name);
}

/// An entry for a region that is not there is refused.
pub proof fn law_unknown_region_is_refused(w: WindowView, name: Seq<char>, entry: EntryView)
    requires
        forall|j: int| 0 <= j < w.regions.len() ==> (#[trigger] w.regions[j]).name != name,
    ensures
        w.adding(name, entry) == Err::<WindowView, WindowError>(WindowError::UnknownRegion),
        w.offered(name, entry) == w,
        !w.has_region(name),
        w.room_in(name) == 0,
{
    lemma_region_at(w.regions, name);
}

/// The tokens of all regions add up, one region after the other.
pub proof fn law_tokens_add_up(regions: Seq<RegionView>, region: RegionView)
    ensures
        token_sum(Seq::empty()) == 0,
        token_sum(regions.push(region)) == token_sum(regions) + region.current_tokens,
{
    assert(regions.push(region).drop_last() =~= regions);
}

/// Some entries are as sensitive as the most sensitive of them: no entry is more so, and one
/// is as much so, unless all is public.
pub proof fn law_entries_are_as_sensitive_as_the_worst(entries: Seq<EntryView>)
    ensures
        forall|i: int|
            0 <= i < entries.len() ==> (#[trigger] entries[i]).taint.rank() <= entries_taint(
                entries,
            ).rank(),
        entries_taint(entries) is Public || exists|i: int|
            0 <= i < entries.len() && (#[trigger] entries[i]).taint == entries_taint(entries),
        TaintLevel::Public.rank() < TaintLevel::Internal.rank(),
        TaintLevel::Internal.rank() < TaintLevel::Private.rank(),
    decreases entries.len(),
{
    if entries.len() > 0 {
        let front = entries.drop_last();
        law_entries_are_as_sensitive_as_the_worst(front);
        assert forall|i: int| 0 <= i < entries.len() implies (
        #[trigger] entries[i]).taint.rank() <= entries_taint(entries).rank() by {
            if i < front.len() {
                assert(front[i] == entries[i]);
            }
        }
        if entries_taint(front) == entries_taint(entries) && !(entries_taint(entries) is Public) {
            let i = choose|i: int|
                0 <= i < front.len() && (#[trigger] front[i]).taint == entries_taint(front);
            assert(entries[i] == front[i]);
        } else {
            assert(entries[entries.len() - 1].taint == entries.last().taint);
        }
    }
}

/// What carries no sensitive data is public, and otherwise as it was given.
pub proof fn law_plain_entry_is_public(kind: EntryKindView, content: Seq<char>, tokens: nat)
    ensures
        ({
            let entry = public_entry(kind, content, tokens);
            &&& entry.kind == kind
            &&& entry.content == content
            &&& entry.tokens == tokens
            &&& entry.taint is Public
        }),
{
}

/// A cleared region holds nothing and counts nothing, and is otherwise the region it was.
pub proof fn law_cleared_region_is_empty(region: RegionView)
    ensures
        region.cleared().content.len() == 0,
        region.cleared().current_tokens == 0,
        region.cleared().name == region.name,
        region.cleared().kind == region.kind,
        region.cleared().max_tokens == region.max_tokens,
{
}

/// Regions are as sensitive as the most sensitive of their entries: none is more so, and one
/// is as much so, unless all is public.
pub proof fn law_regions_are_as_sensitive_as_the_worst(regions: Seq<RegionView>)
    ensures
        forall|p: int, i: int|
            0 <= p < regions.len() && 0 <= i < regions[p].content.len() ==> (
            #[trigger] regions[p].content[i]).taint.rank() <= regions_taint(regions).rank(),
        regions_taint(regions) is Public || exists|p: int, i: int|
            0 <= p < regions.len() && 0 <= i < regions[p].content.len() && (
            #[trigger] regions[p].content[i]).taint == regions_taint(regions),
    decreases regions.len(),
{
    if regions.len() > 0 {
        let front = regions.drop_last();
        let n = regions.len() - 1;
        law_regions_are_as_sensitive_as_the_worst(front);
        law_entries_are_as_sensitive_as_the_worst(regions.last().content);
        assert forall|p: int, i: int|
            0 <= p < regions.len() && 0 <= i < regions[p].content.len() implies (
        #[trigger] regions[p].content[i]).taint.rank() <= regions_taint(regions).rank() by {
            if p < n {
                assert(front[p].content[i] == regions[p].content[i]);
            } else {
                assert(regions.last().content[i] == regions[p].content[i]);
            }
        }
        let worst = regions_taint(regions);
        if !(worst is Public) {
            if worst == regions_taint(front) {
                let (p, i) = choose|p: int, i: int|
                    0 <= p < front.len() && 0 <= i < front[p].content.len() && (
                    #[trigger] front[p].content[i]).taint == regions_taint(front);
                assert(regions[p].content[i].taint == worst);
            } else {
                let last = regions.last().content;
                let i = choose|i: int|
                    0 <= i < last.len() && (#[trigger] last[i]).taint == entries_taint(last);
                assert(regions[n].content[i].taint == worst);
            }
        }
    }
}

} // verus!
