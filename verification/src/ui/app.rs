//! The state of the picker and what can be done to it.

use crate::config::AppConfig;
use crate::paths::{is_same_place, paths_equal, Place};
use crate::protocol::SessionInfo;
use crate::text::{
    contains_text, holds_part, is_white, joined, law_blank_is_all_white, lowered, same_text, texts,
    to_lower, trim, trimmed, words,
};
use crate::ui::zoxide::{
    fuzzy_filter, is_best, is_order, order_by, query_terms, rank, terms_of, zoxide_rank_for_path,
    SortKey, ZoxideEntry, ZoxideMatch,
};
use vstd::prelude::*;

verus! {

/// What the picker is used for.
pub enum Mode {
    /// To choose a session.
    Normal,
    /// To name a new session.
    Create,
    /// To give a session another name.
    Rename { old_name: String },
    /// To choose a directory.
    Zoxide,
}

/// The same, in text.
pub ghost enum ModeView {
    Normal,
    Create,
    Rename { old_name: Seq<char> },
    Zoxide,
}

impl View for Mode {
    type V = ModeView;

    open spec fn view(&self) -> ModeView {
        match self {
            Mode::Normal => ModeView::Normal,
            Mode::Create => ModeView::Create,
            Mode::Rename { old_name } => ModeView::Rename { old_name: old_name@ },
            Mode::Zoxide => ModeView::Zoxide,
        }
    }
}

/// The state of the picker.
pub struct App {
    pub config: AppConfig,
    pub active_session: Option<String>,
    pub sessions: Vec<SessionInfo>,
    pub selected: usize,
    pub zoxide_index: Vec<ZoxideEntry>,
    pub zoxide_matches: Vec<ZoxideMatch>,
    pub zoxide_selected: usize,
    pub mode: Mode,
    pub input: String,
    pub create_suggestion: String,
}

/// What the state holds.
#[verifier::ext_equal]
pub ghost struct AppView {
    pub config: AppConfig,
    pub active_session: Option<String>,
    pub sessions: Seq<SessionInfo>,
    pub selected: usize,
    pub zoxide_index: Seq<ZoxideEntry>,
    pub zoxide_matches: Seq<ZoxideMatch>,
    pub zoxide_selected: usize,
    pub mode: ModeView,
    pub input: Seq<char>,
    pub create_suggestion: Seq<char>,
}

impl View for App {
    type V = AppView;

    open spec fn view(&self) -> AppView {
        AppView {
            config: self.config,
            active_session: self.active_session,
            sessions: self.sessions@,
            selected: self.selected,
            zoxide_index: self.zoxide_index@,
            zoxide_matches: self.zoxide_matches@,
            zoxide_selected: self.zoxide_selected,
            mode: self.mode@,
            input: self.input@,
            create_suggestion: self.create_suggestion@,
        }
    }
}

impl AppView {
    /// What is selected is in its list, unless the list is empty.
    pub open spec fn wf(self) -> bool {
        &&& self.selected < self.sessions.len() || self.selected == 0
        &&& self.zoxide_selected < self.zoxide_matches.len() || self.zoxide_selected == 0
    }

    /// What is searched of a session: its name and its directory, in lower case.
    pub open spec fn searched(self, i: int) -> Seq<char> {
        lowered(self.sessions[i].name@) + seq![' '] + lowered(self.sessions[i].cwd@)
    }

    /// Whether a session is shown. While sessions are chosen, the input is a search: every
    /// term of it must be found.
    pub open spec fn is_visible(self, i: int) -> bool {
        self.mode is Normal ==> forall|k: int|
            0 <= k < query_terms(self.input).len() ==> holds_part(
                self.searched(i),
                #[trigger] query_terms(self.input)[k],
            )
    }

    /// The sessions that are shown, among the first `n`.
    pub open spec fn visible_before(self, n: int) -> Seq<int>
        decreases n,
    {
        if n <= 0 {
            Seq::empty()
        } else if self.is_visible(n - 1) {
            self.visible_before(n - 1).push(n - 1)
        } else {
            self.visible_before(n - 1)
        }
    }

    /// The sessions that are shown, by their places in the list.
    pub open spec fn visible(self) -> Seq<int> {
        self.visible_before(self.sessions.len() as int)
    }

    /// The state with a selection that is shown, if anything is.
    pub open spec fn synced(self) -> AppView {
        let visible = self.visible();
        if visible.contains(self.selected as int) {
            self
        } else if visible.len() > 0 {
            AppView { selected: visible[0] as usize, ..self }
        } else {
            AppView { selected: 0, ..self }
        }
    }

    /// Where the selection stands among the sessions that are shown; at the front if it is not
    /// shown.
    pub open spec fn cursor(self) -> int {
        if self.visible().contains(self.selected as int) {
            first_place(self.visible(), self.selected as int)
        } else {
            0
        }
    }

    /// The state with the session before the selected one selected, and the last before the
    /// first.
    pub open spec fn moved_up(self) -> AppView {
        let visible = self.visible();
        if visible.len() == 0 {
            self
        } else if self.cursor() == 0 {
            AppView { selected: visible.last() as usize, ..self }
        } else {
            AppView { selected: visible[self.cursor() - 1] as usize, ..self }
        }
    }

    /// The state with the session after the selected one selected, and the first after the last.
    pub open spec fn moved_down(self) -> AppView {
        let visible = self.visible();
        if visible.len() == 0 {
            self
        } else if self.cursor() + 1 == visible.len() {
            AppView { selected: visible[0] as usize, ..self }
        } else {
            AppView { selected: visible[self.cursor() + 1] as usize, ..self }
        }
    }

    /// The same among the directories.
    pub open spec fn zoxide_moved_up(self) -> AppView {
        if self.zoxide_matches.len() == 0 {
            self
        } else if self.zoxide_selected == 0 {
            AppView { zoxide_selected: (self.zoxide_matches.len() - 1) as usize, ..self }
        } else {
            AppView { zoxide_selected: (self.zoxide_selected - 1) as usize, ..self }
        }
    }

    /// The same among the directories.
    pub open spec fn zoxide_moved_down(self) -> AppView {
        if self.zoxide_matches.len() == 0 {
            self
        } else if self.zoxide_selected + 1 >= self.zoxide_matches.len() {
            AppView { zoxide_selected: 0, ..self }
        } else {
            AppView { zoxide_selected: (self.zoxide_selected + 1) as usize, ..self }
        }
    }

    /// The name of the selected session, if there is one and it is shown.
    pub open spec fn chosen(self) -> Option<Seq<char>> {
        if self.selected < self.sessions.len() && (self.mode is Normal ==> self.visible().contains(
            self.selected as int,
        )) {
            Some(self.sessions[self.selected as int].name@)
        } else {
            None
        }
    }

    /// The name to keep selected when the list changes: that of the selected session, or else
    /// that of the active one.
    pub open spec fn preferred(self) -> Option<Seq<char>> {
        if self.selected < self.sessions.len() {
            Some(self.sessions[self.selected as int].name@)
        } else {
            match self.active_session {
                Some(name) => Some(name@),
                None => None,
            }
        }
    }

    /// The place in a new list to select.
    pub open spec fn reselected(self, sessions: Seq<SessionInfo>) -> usize {
        match self.preferred() {
            Some(name) => match first_named(sessions, name, 0) {
                Some(i) => i as usize,
                None => clamped(self.selected, sessions.len()),
            },
            None => clamped(self.selected, sessions.len()),
        }
    }

    /// The state with a new list of sessions.
    pub open spec fn refreshed(self, sessions: Seq<SessionInfo>) -> AppView {
        if sessions.len() == 0 {
            AppView { sessions, selected: 0, ..self }
        } else {
            (AppView { sessions, selected: self.reselected(sessions), ..self }).synced()
        }
    }

    /// The name for a new session: the one typed, or else the one suggested.
    pub open spec fn new_name(self) -> Option<Seq<char>> {
        if trimmed(self.input).len() > 0 {
            Some(trimmed(self.input))
        } else if self.create_suggestion.len() > 0 {
            Some(self.create_suggestion)
        } else {
            None
        }
    }

    /// The state in which directories are chosen, before any search.
    pub open spec fn in_zoxide_mode(self) -> AppView {
        AppView { mode: ModeView::Zoxide, input: Seq::empty(), zoxide_selected: 0, ..self }
    }

    /// The selected directory.
    pub open spec fn chosen_path(self) -> Option<Seq<char>> {
        if self.zoxide_selected < self.zoxide_matches.len() {
            Some(self.zoxide_matches[self.zoxide_selected as int].path@)
        } else {
            None
        }
    }

    /// The keys by which the directories found are arranged.
    pub open spec fn rank_keys(self, sessions: Seq<Place>, found: Seq<Place>) -> Seq<SortKey> {
        found.map_values(
            |place: Place|
                SortKey {
                    first: (2 - rank(self.sessions, sessions, self.active_session, place)) as i64,
                    second: 0,
                },
        )
    }

    /// Whether `after` is the state with the directories arranged: those of the active session
    /// first, then those of other sessions, then the rest, otherwise as before; with the
    /// selection within the list; and where asked for, with the directory of the active session
    /// selected if it was found. `sessions` are the directories of the sessions, `found` the
    /// directories that were found.
    pub open spec fn is_arranged(
        self,
        sessions: Seq<Place>,
        found: Seq<Place>,
        select_active: bool,
        after: AppView,
    ) -> bool {
        exists|order: Seq<usize>| #[trigger]
            is_order(self.rank_keys(sessions, found), order) && after == (AppView {
                zoxide_matches: order.map_values(|i: usize| self.zoxide_matches[i as int]),
                zoxide_selected: self.arranged_selection(sessions, found, order, select_active),
                ..self
            })
    }

    /// The selection among arranged directories.
    pub open spec fn arranged_selection(
        self,
        sessions: Seq<Place>,
        found: Seq<Place>,
        order: Seq<usize>,
        select_active: bool,
    ) -> usize {
        let kept = clamped(self.zoxide_selected, self.zoxide_matches.len());
        match self.active_place(sessions) {
            Some(place) if select_active => match first_same_place(found, order, place, 0) {
                Some(k) => k as usize,
                None => kept,
            },
            _ => kept,
        }
    }

    /// The directory of the active session, if it is in the list.
    pub open spec fn active_place(self, sessions: Seq<Place>) -> Option<Place> {
        match self.active_session {
            Some(name) => match first_named(self.sessions, name@, 0) {
                Some(i) => Some(sessions[i]),
                None => None,
            },
            None => None,
        }
    }
}

/// A place within a list of this length, nothing being at the front of an empty one.
pub open spec fn clamped(selected: usize, len: nat) -> usize {
    if len == 0 {
        0
    } else if selected >= len {
        (len - 1) as usize
    } else {
        selected
    }
}

/// The first place of a number in a sequence.
pub open spec fn first_place(s: Seq<int>, x: int) -> int
    decreases s.len(),
{
    if s.len() == 0 || s[0] == x {
        0
    } else {
        1 + first_place(s.drop_first(), x)
    }
}

/// The first session from `from` on with this name.
pub open spec fn first_named(sessions: Seq<SessionInfo>, name: Seq<char>, from: int) -> Option<int>
    decreases sessions.len() - from,
{
    if from < 0 || from >= sessions.len() {
        None
    } else if sessions[from].name@ == name {
        Some(from)
    } else {
        first_named(sessions, name, from + 1)
    }
}

/// The first of the directories, in this order and from `from` on, that is this place.
pub open spec fn first_same_place(
    found: Seq<Place>,
    order: Seq<usize>,
    place: Place,
    from: int,
) -> Option<int>
    decreases order.len() - from,
{
    if from < 0 || from >= order.len() {
        None
    } else if is_same_place(found[order[from] as int], place) {
        Some(from)
    } else {
        first_same_place(found, order, place, from + 1)
    }
}

/// The numbers in a vector.
pub open spec fn as_ints(v: Seq<usize>) -> Seq<int> {
    v.map_values(|i: usize| i as int)
}

/// The state holds the same, in text; and numbers stand for themselves.
pub proof fn law_views_of_states(app: App, numbers: Seq<usize>, i: int)
    ensures
        app@.config == app.config,
        app@.active_session == app.active_session,
        app@.sessions == app.sessions@,
        app@.selected == app.selected,
        app@.zoxide_index == app.zoxide_index@,
        app@.zoxide_matches == app.zoxide_matches@,
        app@.zoxide_selected == app.zoxide_selected,
        app@.input == app.input@,
        app@.create_suggestion == app.create_suggestion@,
        app@.mode is Normal <==> app.mode is Normal,
        app@.mode is Create <==> app.mode is Create,
        app@.mode is Zoxide <==> app.mode is Zoxide,
        app.mode matches Mode::Rename { old_name } ==> app@.mode == (ModeView::Rename {
            old_name: old_name@,
        }),
        as_ints(numbers).len() == numbers.len(),
        0 <= i < numbers.len() ==> as_ints(numbers)[i] == numbers[i],
{
}

/// The sessions that are shown are in the list, in its order.
pub proof fn lemma_visible(app: AppView, n: int)
    requires
        0 <= n <= app.sessions.len(),
    ensures
        forall|k: int|
            0 <= k < app.visible_before(n).len() ==> 0 <= #[trigger] app.visible_before(n)[k] < n,
        forall|j: int, k: int|
            0 <= j < k < app.visible_before(n).len() ==> app.visible_before(n)[j]
                < app.visible_before(n)[k],
    decreases n,
{
    if n > 0 {
        lemma_visible(app, n - 1);
        let before = app.visible_before(n - 1);
        let all = app.visible_before(n);
        assert forall|k: int| 0 <= k < all.len() implies 0 <= #[trigger] all[k] < n by {
            if k < before.len() {
                assert(all[k] == before[k]);
            }
        }
        assert forall|j: int, k: int| 0 <= j < k < all.len() implies all[j] < all[k] by {
            assert(all[j] == before[j]);
            if k < before.len() {
                assert(all[k] == before[k]);
            }
        }
    }
}

/// The first place of a number is where it stands and nowhere before.
pub proof fn lemma_first_place(s: Seq<int>, x: int, at: int)
    requires
        0 <= at < s.len(),
        s[at] == x,
        forall|k: int| 0 <= k < at ==> s[k] != x,
    ensures
        first_place(s, x) == at,
    decreases at,
{
    if at > 0 {
        assert(s.drop_first()[at - 1] == x);
        lemma_first_place(s.drop_first(), x, at - 1);
    }
}

/// Finds the first session with this name.
fn find_named(sessions: &Vec<SessionInfo>, name: &str) -> (r: Option<usize>)
    ensures
        match r {
            Some(i) => i < sessions@.len() && first_named(sessions@, name@, 0) == Some(i as int),
            None => first_named(sessions@, name@, 0) is None,
        },
{
    let mut i: usize = 0;
    while i < sessions.len()
        invariant
            i <= sessions@.len(),
            first_named(sessions@, name@, 0) == first_named(sessions@, name@, i as int),
        decreases sessions@.len() - i,
    {
        if same_text(sessions[i].name.as_str(), name) {
            return Some(i);
        }
        i += 1;
    }
    None
}

/// Finds a number in a vector.
fn find_number(v: &Vec<usize>, x: usize) -> (r: Option<usize>)
    ensures
        match r {
            Some(i) => i < v@.len() && v@[i as int] == x && first_place(as_ints(v@), x as int) == i
                && as_ints(v@).contains(x as int),
            None => !as_ints(v@).contains(x as int),
        },
{
    let mut i: usize = 0;
    while i < v.len()
        invariant
            i <= v@.len(),
            forall|k: int| 0 <= k < i ==> as_ints(v@)[k] != x,
        decreases v@.len() - i,
    {
        if v[i] == x {
            proof {
                assert(as_ints(v@)[i as int] == x);
                lemma_first_place(as_ints(v@), x as int, i as int);
            }
            return Some(i);
        }
        i += 1;
    }
    None
}

impl App {
    /// The state of a picker that has not asked for anything yet.
    pub fn new(config: AppConfig, active_session: Option<String>) -> (r: Self)
        ensures
            r@.wf(),
            r@ == (AppView {
                config,
                active_session,
                sessions: Seq::empty(),
                selected: 0,
                zoxide_index: Seq::empty(),
                zoxide_matches: Seq::empty(),
                zoxide_selected: 0,
                mode: ModeView::Normal,
                input: Seq::empty(),
                create_suggestion: Seq::empty(),
            }),
    {
        let r = App {
            config,
            active_session,
            sessions: Vec::new(),
            selected: 0,
            zoxide_index: Vec::new(),
            zoxide_matches: Vec::new(),
            zoxide_selected: 0,
            mode: Mode::Normal,
            input: String::new(),
            create_suggestion: String::new(),
        };
        assert(r.input@ =~= Seq::empty());
        assert(r.create_suggestion@ =~= Seq::empty());
        r
    }

    fn is_shown(&self, i: usize, terms: &Vec<String>) -> (r: bool)
        requires
            i < self.sessions@.len(),
            self.mode is Normal ==> texts(terms@) == query_terms(self.input@),
            !(self.mode is Normal) ==> terms@.len() == 0,
        ensures
            r == self@.is_visible(i as int),
    {
        proof {
            reveal_strlit(" ");
        }
        let name = to_lower(self.sessions[i].name.as_str());
        let cwd = to_lower(self.sessions[i].cwd.as_str());
        let haystack = joined(joined(name.as_str(), " ").as_str(), cwd.as_str());
        assert(haystack@ =~= self@.searched(i as int));
        let mut k: usize = 0;
        assert(texts(terms@).len() == terms@.len());
        while k < terms.len()
            invariant
                i < self.sessions@.len(),
                self.mode is Normal ==> texts(terms@) == query_terms(self.input@),
                !(self.mode is Normal) ==> terms@.len() == 0,
                texts(terms@).len() == terms@.len(),
                haystack@ == self@.searched(i as int),
                k <= terms@.len(),
                forall|j: int|
                    0 <= j < k ==> holds_part(haystack@, #[trigger] query_terms(self.input@)[j]),
            decreases terms@.len() - k,
        {
            assert(texts(terms@)[k as int] == terms@[k as int]@);
            if !contains_text(haystack.as_str(), terms[k].as_str()) {
                assert(!holds_part(self@.searched(i as int), query_terms(self@.input)[k as int]));
                return false;
            }
            k += 1;
        }
        true
    }

    /// The sessions that are shown, by their places in the list.
    pub fn filtered_session_indices(&self) -> (r: Vec<usize>)
        ensures
            as_ints(r@) == self@.visible(),
    {
        let terms = match &self.mode {
            Mode::Normal => terms_of(self.input.as_str()),
            _ => Vec::new(),
        };
        let mut r: Vec<usize> = Vec::new();
        let mut i: usize = 0;
        assert(as_ints(r@) =~= self@.visible_before(0));
        while i < self.sessions.len()
            invariant
                self.mode is Normal ==> texts(terms@) == query_terms(self.input@),
                !(self.mode is Normal) ==> terms@.len() == 0,
                i <= self.sessions@.len(),
                as_ints(r@) == self@.visible_before(i as int),
            decreases self.sessions@.len() - i,
        {
            let ghost before = as_ints(r@);
            if self.is_shown(i, &terms) {
                r.push(i);
                assert(as_ints(r@) =~= before.push(i as int));
            }
            i += 1;
        }
        r
    }

    /// Selects a session that is shown, if any is.
    pub fn sync_selected_with_search(&mut self)
        ensures
            final(self)@ == old(self)@.synced(),
            final(self)@.selected < final(self)@.sessions.len() || final(self)@.selected == 0,
    {
        let visible = self.filtered_session_indices();
        proof {
            lemma_visible(self@, self.sessions@.len() as int);
            assert(as_ints(visible@).len() == visible@.len());
            assert(visible@.len() > 0 ==> as_ints(visible@)[0] == visible@[0]);
        }
        if find_number(&visible, self.selected).is_some() {
            assert(exists|k: int|
                0 <= k < self@.visible().len() && self@.visible()[k] == self@.selected);
            return;
        }
        if visible.len() == 0 {
            self.selected = 0;
        } else {
            self.selected = visible[0];
        }
    }

    /// Selects the session before.
    pub fn move_session_up(&mut self)
        requires
            old(self)@.wf(),
        ensures
            final(self)@ == old(self)@.moved_up(),
            final(self)@.wf(),
    {
        let visible = self.filtered_session_indices();
        proof {
            lemma_visible(self@, self.sessions@.len() as int);
            assert(as_ints(visible@).len() == visible@.len());
            assert forall|k: int| 0 <= k < visible@.len() implies #[trigger] as_ints(visible@)[k]
                == visible@[k] by {}
        }
        if visible.len() == 0 {
            return;
        }
        let current: usize = match find_number(&visible, self.selected) {
            Some(at) => at,
            None => 0,
        };
        let next: usize = if current == 0 {
            visible.len() - 1
        } else {
            current - 1
        };
        assert(0 <= as_ints(visible@)[next as int] < self.sessions@.len());
        self.selected = visible[next];
    }

    /// Selects the session after.
    pub fn move_session_down(&mut self)
        requires
            old(self)@.wf(),
        ensures
            final(self)@ == old(self)@.moved_down(),
            final(self)@.wf(),
    {
        let visible = self.filtered_session_indices();
        proof {
            lemma_visible(self@, self.sessions@.len() as int);
            assert(as_ints(visible@).len() == visible@.len());
            assert forall|k: int| 0 <= k < visible@.len() implies #[trigger] as_ints(visible@)[k]
                == visible@[k] by {}
        }
        if visible.len() == 0 {
            return;
        }
        let current: usize = match find_number(&visible, self.selected) {
            Some(at) => at,
            None => 0,
        };
        let next: usize = if current + 1 == visible.len() {
            0
        } else {
            current + 1
        };
        assert(0 <= as_ints(visible@)[next as int] < self.sessions@.len());
        self.selected = visible[next];
    }

    /// Selects the directory before.
    pub fn move_zoxide_up(&mut self)
        requires
            old(self)@.wf(),
        ensures
            final(self)@ == old(self)@.zoxide_moved_up(),
            final(self)@.wf(),
    {
        if self.zoxide_matches.len() == 0 {
            return;
        }
        if self.zoxide_selected == 0 {
            self.zoxide_selected = self.zoxide_matches.len() - 1;
        } else {
            self.zoxide_selected = self.zoxide_selected - 1;
        }
    }

    /// Selects the directory after.
    pub fn move_zoxide_down(&mut self)
        requires
            old(self)@.wf(),
        ensures
            final(self)@ == old(self)@.zoxide_moved_down(),
            final(self)@.wf(),
    {
        if self.zoxide_matches.len() == 0 {
            return;
        }
        let last: usize = self.zoxide_matches.len() - 1;
        if self.zoxide_selected >= last {
            self.zoxide_selected = 0;
        } else {
            self.zoxide_selected = self.zoxide_selected + 1;
        }
    }

    /// The name of the selected session, if there is one and it is shown.
    pub fn selected_visible_session_name(&self) -> (r: Option<String>)
        ensures
            match r {
                Some(name) => self@.chosen() == Some(name@),
                None => self@.chosen() is None,
            },
    {
        if self.selected >= self.sessions.len() {
            return None;
        }
        if let Mode::Normal = &self.mode {
            let visible = self.filtered_session_indices();
            if find_number(&visible, self.selected).is_none() {
                return None;
            }
        }
        Some(self.sessions[self.selected].name.clone())
    }

    fn preferred_name(&self) -> (r: Option<String>)
        ensures
            match r {
                Some(name) => self@.preferred() == Some(name@),
                None => self@.preferred() is None,
            },
    {
        if self.selected < self.sessions.len() {
            return Some(self.sessions[self.selected].name.clone());
        }
        match &self.active_session {
            Some(name) => Some(name.clone()),
            None => None,
        }
    }

    /// Takes a new list of sessions and keeps the selection with its session as far as possible.
    pub fn refresh(&mut self, sessions: Vec<SessionInfo>)
        requires
            old(self)@.wf(),
        ensures
            final(self)@ == old(self)@.refreshed(sessions@),
            final(self)@.wf(),
    {
        let preferred = self.preferred_name();
        let n = sessions.len();
        if n == 0 {
            self.sessions = sessions;
            self.selected = 0;
            return;
        }
        let kept: usize = if self.selected >= n {
            n - 1
        } else {
            self.selected
        };
        let selected: usize = match &preferred {
            Some(name) => match find_named(&sessions, name.as_str()) {
                Some(i) => i,
                None => kept,
            },
            None => kept,
        };
        self.sessions = sessions;
        self.selected = selected;
        self.sync_selected_with_search();
    }

    /// The name for a new session.
    pub fn create_name(&self) -> (r: Option<String>)
        ensures
            match r {
                Some(name) => self@.new_name() == Some(name@),
                None => self@.new_name() is None,
            },
    {
        let typed = trim(self.input.as_str());
        if typed.unicode_len() > 0 {
            return Some(typed.to_owned());
        }
        if self.create_suggestion.as_str().unicode_len() == 0 {
            return None;
        }
        Some(self.create_suggestion.clone())
    }

    /// Starts to choose directories.
    pub fn enter_zoxide_mode(&mut self)
        requires
            old(self)@.wf(),
        ensures
            final(self)@ == old(self)@.in_zoxide_mode(),
            final(self)@.wf(),
    {
        self.mode = Mode::Zoxide;
        self.input = String::new();
        self.zoxide_selected = 0;
        assert(self.input@ =~= Seq::empty());
    }

    /// The selected directory.
    pub fn selected_zoxide_path(&self) -> (r: Option<String>)
        ensures
            match r {
                Some(path) => self@.chosen_path() == Some(path@),
                None => self@.chosen_path() is None,
            },
    {
        if self.zoxide_selected < self.zoxide_matches.len() {
            Some(self.zoxide_matches[self.zoxide_selected].path.clone())
        } else {
            None
        }
    }

    /// Searches the directories with the input. `totals` holds the scores of those that match.
    pub fn search_zoxide(&mut self, totals: &[u64])
        requires
            totals@.len() == old(self)@.zoxide_index.len(),
        ensures
            is_best(
                old(self)@.input,
                old(self)@.zoxide_index,
                totals@,
                old(self)@.config.zoxide.limit as int,
                final(self)@.zoxide_matches,
            ),
            final(self)@ == (AppView {
                zoxide_matches: final(self)@.zoxide_matches,
                ..old(self)@
            }),
    {
        let found = fuzzy_filter(
            self.input.as_str(),
            &self.zoxide_index,
            totals,
            self.config.zoxide.limit,
        );
        self.zoxide_matches = found;
    }

    /// Arranges the directories found. `sessions` are the directories of the sessions, `found`
    /// the directories found, both as places.
    pub fn arrange_zoxide(&mut self, sessions: &[Place], found: &[Place], select_active: bool)
        requires
            sessions@.len() == old(self)@.sessions.len(),
            found@.len() == old(self)@.zoxide_matches.len(),
        ensures
            old(self)@.is_arranged(sessions@, found@, select_active, final(self)@),
            final(self)@.zoxide_selected < final(self)@.zoxide_matches.len()
                || final(self)@.zoxide_selected == 0,
    {
        let mut keys: Vec<SortKey> = Vec::new();
        let mut i: usize = 0;
        while i < found.len()
            invariant
                sessions@.len() == self@.sessions.len(),
                i <= found@.len(),
                keys@ == self@.rank_keys(sessions@, found@).take(i as int),
            decreases found@.len() - i,
        {
            let place_rank = zoxide_rank_for_path(
                &self.sessions,
                sessions,
                &self.active_session,
                &found[i],
            );
            keys.push(SortKey { first: 2 - place_rank as i64, second: 0 });
            i += 1;
            assert(keys@ =~= self@.rank_keys(sessions@, found@).take(i as int));
        }
        assert(keys@ =~= self@.rank_keys(sessions@, found@));
        let order = order_by(&keys);
        let n = found.len();
        let mut selected: usize = if n == 0 {
            0
        } else if self.zoxide_selected >= n {
            n - 1
        } else {
            self.zoxide_selected
        };
        if select_active {
            if let Some(name) = &self.active_session {
                if let Some(active) = find_named(&self.sessions, name.as_str()) {
                    if let Some(at) = find_place(found, &order, &sessions[active]) {
                        selected = at;
                    }
                }
            }
        }
        let mut arranged: Vec<ZoxideMatch> = Vec::new();
        let mut k: usize = 0;
        let ghost wanted = order@.map_values(|i: usize| self@.zoxide_matches[i as int]);
        while k < order.len()
            invariant
                wanted == order@.map_values(|i: usize| self@.zoxide_matches[i as int]),
                forall|a: int| 0 <= a < order@.len() ==> (#[trigger] order@[a])
                    < self@.zoxide_matches.len(),
                k <= order@.len(),
                arranged@ == wanted.take(k as int),
            decreases order@.len() - k,
        {
            arranged.push(self.zoxide_matches[order[k]].clone());
            k += 1;
            assert(arranged@ =~= wanted.take(k as int));
        }
        assert(arranged@ =~= wanted);
        self.zoxide_matches = arranged;
        self.zoxide_selected = selected;
        assert(is_order(old(self)@.rank_keys(sessions@, found@), order@));
    }
}

/// Finds the first of the directories, in this order, that is this place.
fn find_place(found: &[Place], order: &Vec<usize>, place: &Place) -> (r: Option<usize>)
    requires
        forall|a: int| 0 <= a < order@.len() ==> (#[trigger] order@[a]) < found@.len(),
    ensures
        match r {
            Some(k) => k < order@.len() && first_same_place(found@, order@, *place, 0) == Some(
                k as int,
            ),
            None => first_same_place(found@, order@, *place, 0) is None,
        },
{
    let mut k: usize = 0;
    while k < order.len()
        invariant
            forall|a: int| 0 <= a < order@.len() ==> (#[trigger] order@[a]) < found@.len(),
            k <= order@.len(),
            first_same_place(found@, order@, *place, 0) == first_same_place(
                found@,
                order@,
                *place,
                k as int,
            ),
        decreases order@.len() - k,
    {
        if paths_equal(&found[order[k]], place) {
            return Some(k);
        }
        k += 1;
    }
    None
}

/// What is shown, in the order of the list: while sessions are chosen, those in whose names and
/// directories, with a blank between them and in lower case, every word of the input stands;
/// otherwise all.
pub proof fn law_shown_sessions(app: AppView, i: int)
    ensures
        app.visible().contains(i) <==> 0 <= i < app.sessions.len() && (app.mode is Normal
            ==> forall|k: int|
            0 <= k < words(lowered(trimmed(app.input))).len() ==> holds_part(
                lowered(app.sessions[i].name@) + seq![' '] + lowered(app.sessions[i].cwd@),
                #[trigger] words(lowered(trimmed(app.input)))[k],
            )),
        forall|j: int, k: int|
            0 <= j < k < app.visible().len() ==> #[trigger] app.visible()[j]
                < #[trigger] app.visible()[k],
{
    lemma_visible(app, app.sessions.len() as int);
    lemma_shown(app, app.sessions.len() as int, i);
}

proof fn lemma_shown(app: AppView, n: int, i: int)
    requires
        0 <= n <= app.sessions.len(),
    ensures
        app.visible_before(n).contains(i) <==> 0 <= i < n && app.is_visible(i),
    decreases n,
{
    if n > 0 {
        lemma_shown(app, n - 1, i);
        let before = app.visible_before(n - 1);
        let all = app.visible_before(n);
        if before.contains(i) {
            let k = choose|k: int| 0 <= k < before.len() && before[k] == i;
            assert(all[k] == i);
        }
        if all.contains(i) {
            let k = choose|k: int| 0 <= k < all.len() && all[k] == i;
            if k < before.len() {
                assert(before[k] == i);
            }
        }
        if i == n - 1 && app.is_visible(i) {
            assert(all[before.len() as int] == i);
        }
    }
}

/// Matching the selection with the search changes nothing else; what is shown stays selected,
/// and in the place of what is not comes the first that is.
pub proof fn law_synced_selection(app: AppView)
    requires
        app.sessions.len() <= usize::MAX,
    ensures
        app.synced() == (AppView { selected: app.synced().selected, ..app }),
        app.visible().contains(app.selected as int) ==> app.synced().selected == app.selected,
        !app.visible().contains(app.selected as int) && app.visible().len() > 0
            ==> app.synced().selected == app.visible()[0],
        app.visible().len() == 0 ==> app.synced().selected == 0,
{
    lemma_visible(app, app.sessions.len() as int);
}

/// Moving up selects what is shown before the selection, and from the first goes to the last;
/// moving down selects what is shown behind it, and from the last goes to the first. Nothing
/// else changes.
pub proof fn law_moving_selects_the_neighbours(app: AppView, at: int)
    requires
        app.sessions.len() <= usize::MAX,
        0 <= at < app.visible().len(),
        app.visible()[at] == app.selected,
    ensures
        app.moved_up() == (AppView { selected: app.moved_up().selected, ..app }),
        app.moved_down() == (AppView { selected: app.moved_down().selected, ..app }),
        at > 0 ==> app.moved_up().selected == app.visible()[at - 1],
        at == 0 ==> app.moved_up().selected == app.visible()[app.visible().len() - 1],
        at + 1 < app.visible().len() ==> app.moved_down().selected == app.visible()[at + 1],
        at + 1 == app.visible().len() ==> app.moved_down().selected == app.visible()[0],
{
    let visible = app.visible();
    lemma_visible(app, app.sessions.len() as int);
    assert(visible.contains(app.selected as int));
    lemma_first_place(visible, app.selected as int, at);
}

/// Where the selection is not shown, moving starts from the first that is; where nothing is,
/// nothing moves.
pub proof fn law_moving_from_what_is_not_shown(app: AppView)
    requires
        app.sessions.len() <= usize::MAX,
        !app.visible().contains(app.selected as int),
    ensures
        app.visible().len() == 0 ==> app.moved_up() == app && app.moved_down() == app,
        app.visible().len() > 0 ==> app.moved_up() == (AppView {
            selected: app.visible().last() as usize,
            ..app
        }),
        app.visible().len() == 1 ==> app.moved_down() == (AppView {
            selected: app.visible()[0] as usize,
            ..app
        }),
        app.visible().len() > 1 ==> app.moved_down() == (AppView {
            selected: app.visible()[1] as usize,
            ..app
        }),
{
}

/// The same among the directories: up is one less, down one more, and the ends meet.
pub proof fn law_zoxide_moving_selects_the_neighbours(app: AppView)
    requires
        app.zoxide_selected < app.zoxide_matches.len() <= usize::MAX,
    ensures
        app.zoxide_moved_up() == (AppView {
            zoxide_selected: app.zoxide_moved_up().zoxide_selected,
            ..app
        }),
        app.zoxide_moved_down() == (AppView {
            zoxide_selected: app.zoxide_moved_down().zoxide_selected,
            ..app
        }),
        app.zoxide_moved_up().zoxide_selected < app.zoxide_matches.len(),
        app.zoxide_moved_down().zoxide_selected < app.zoxide_matches.len(),
        (app.zoxide_moved_up().zoxide_selected + 1 - app.zoxide_selected) % (
        app.zoxide_matches.len() as int) == 0,
        (app.zoxide_moved_down().zoxide_selected - 1 - app.zoxide_selected) % (
        app.zoxide_matches.len() as int) == 0,
        app.zoxide_selected > 0 ==> app.zoxide_moved_up().zoxide_selected == app.zoxide_selected
            - 1,
        app.zoxide_selected + 1 < app.zoxide_matches.len()
            ==> app.zoxide_moved_down().zoxide_selected == app.zoxide_selected + 1,
{
    let n = app.zoxide_matches.len() as int;
    assert(n % n == 0 && (-n) % n == 0 && 0int % n == 0) by (nonlinear_arith)
        requires
            n > 0,
    ;
}

/// The name for a new session is what was typed, without white space around it; where that is
/// nothing, it is the suggestion.
pub proof fn law_new_name(app: AppView)
    ensures
        (exists|i: int| 0 <= i < app.input.len() && !is_white(#[trigger] app.input[i]))
            ==> app.new_name() == Some(trimmed(app.input)),
        (forall|i: int| 0 <= i < app.input.len() ==> is_white(#[trigger] app.input[i])) ==> if
        app.create_suggestion.len() > 0 {
            app.new_name() == Some(app.create_suggestion)
        } else {
            app.new_name() is None
        },
{
    law_blank_is_all_white(app.input);
}

/// In a new list the session is selected that has the name of the one selected before, or without
/// a selection that of the active one; the selection then follows the search, and nothing else
/// changes.
pub proof fn law_refresh_selects_by_name(app: AppView, sessions: Seq<SessionInfo>, i: int)
    requires
        0 <= i < sessions.len() <= usize::MAX,
        if app.selected < app.sessions.len() {
            sessions[i].name@ == app.sessions[app.selected as int].name@
        } else {
            app.active_session matches Some(name) && sessions[i].name@ == name@
        },
        forall|k: int| 0 <= k < i ==> (#[trigger] sessions[k]).name@ != sessions[i].name@,
    ensures
        app.refreshed(sessions) == (AppView { sessions, selected: i as usize, ..app }).synced(),
{
    lemma_first_named(sessions, sessions[i].name@, 0, i);
}

/// Where no session of a new list has that name, the place of the selection stays, or becomes
/// the last where the list is too short; the selection then follows the search, and nothing else
/// changes. In an empty list the first place is selected.
pub proof fn law_refresh_keeps_the_place(app: AppView, sessions: Seq<SessionInfo>)
    requires
        sessions.len() <= usize::MAX,
        forall|k: int|
            0 <= k < sessions.len() ==> if app.selected < app.sessions.len() {
                (#[trigger] sessions[k]).name@ != app.sessions[app.selected as int].name@
            } else {
                app.active_session matches Some(name) ==> sessions[k].name@ != name@
            },
    ensures
        sessions.len() == 0 ==> app.refreshed(sessions) == (AppView {
            sessions,
            selected: 0,
            ..app
        }),
        app.selected < sessions.len() ==> app.refreshed(sessions) == (AppView {
            sessions,
            ..app
        }).synced(),
        app.selected >= sessions.len() > 0 ==> app.refreshed(sessions) == (AppView {
            sessions,
            selected: (sessions.len() - 1) as usize,
            ..app
        }).synced(),
{
    if app.selected < app.sessions.len() {
        lemma_none_named(sessions, app.sessions[app.selected as int].name@, 0);
    } else if let Some(name) = app.active_session {
        lemma_none_named(sessions, name@, 0);
    }
}

proof fn lemma_none_named(sessions: Seq<SessionInfo>, name: Seq<char>, from: int)
    requires
        0 <= from <= sessions.len(),
        forall|k: int| from <= k < sessions.len() ==> (#[trigger] sessions[k]).name@ != name,
    ensures
        first_named(sessions, name, from) is None,
    decreases sessions.len() - from,
{
    if from < sessions.len() {
        assert(sessions[from].name@ != name);
        lemma_none_named(sessions, name, from + 1);
    }
}

/// Whether `order` names every place below `n` once.
pub open spec fn names_all(order: Seq<usize>, n: nat) -> bool {
    &&& order.len() == n
    &&& forall|i: usize| i < n ==> #[trigger] order.contains(i)
}

proof fn lemma_order_names_all(keys: Seq<SortKey>, order: Seq<usize>)
    requires
        is_order(keys, order),
    ensures
        names_all(order, keys.len()),
{
    assert forall|i: usize| i < keys.len() implies #[trigger] order.contains(i) by {
        assert(crate::ui::zoxide::is_named(order, i as int));
    }
}

/// Where asked for, the first of the arranged directories that is that of the active session is
/// selected; where none is, the place of the selection stays, or is the last.
pub proof fn law_active_directory_is_selected(
    app: AppView,
    sessions: Seq<Place>,
    found: Seq<Place>,
    after: AppView,
    i: int,
) -> (order: Seq<usize>)
    requires
        app.is_arranged(sessions, found, true, after),
        found.len() == app.zoxide_matches.len() <= usize::MAX,
        sessions.len() == app.sessions.len(),
        0 <= i < sessions.len(),
        app.active_session matches Some(name) && name@ == app.sessions[i].name@,
        forall|k: int| 0 <= k < i ==> (#[trigger] app.sessions[k]).name@ != app.sessions[i].name@,
    ensures
        names_all(order, found.len()),
        after.zoxide_matches.len() == found.len(),
        forall|a: int|
            0 <= a < found.len() ==> #[trigger] after.zoxide_matches[a]
                == app.zoxide_matches[order[a] as int],
        if exists|k: int| 0 <= k < found.len() && is_same_place(#[trigger] found[k], sessions[i]) {
            let at = after.zoxide_selected as int;
            &&& at < found.len()
            &&& is_same_place(found[order[at] as int], sessions[i])
            &&& forall|a: int|
                0 <= a < at ==> !is_same_place(found[#[trigger] order[a] as int], sessions[i])
        } else {
            after.zoxide_selected == if found.len() == 0 {
                0
            } else if app.zoxide_selected < found.len() {
                app.zoxide_selected as int
            } else {
                found.len() - 1
            }
        },
{
    let keys = app.rank_keys(sessions, found);
    let order = choose|order: Seq<usize>| #[trigger]
        is_order(keys, order) && after == (AppView {
            zoxide_matches: order.map_values(|i: usize| app.zoxide_matches[i as int]),
            zoxide_selected: app.arranged_selection(sessions, found, order, true),
            ..app
        });
    lemma_order_names_all(keys, order);
    lemma_first_named(app.sessions, app.sessions[i].name@, 0, i);
    lemma_first_same_place(found, order, sessions[i], 0);
    if exists|k: int| 0 <= k < found.len() && is_same_place(#[trigger] found[k], sessions[i]) {
        let k = choose|k: int|
            0 <= k < found.len() && is_same_place(#[trigger] found[k], sessions[i]);
        assert(order.contains(k as usize));
        let a = choose|a: int| 0 <= a < order.len() && order[a] == k as usize;
        assert(is_same_place(found[order[a] as int], sessions[i]));
    } else if first_same_place(found, order, sessions[i], 0) is Some {
        let a = first_same_place(found, order, sessions[i], 0).unwrap();
        assert(order[a] < keys.len());
        assert(is_same_place(found[order[a] as int], sessions[i]));
    }
    order
}

proof fn lemma_first_same_place(found: Seq<Place>, order: Seq<usize>, place: Place, from: int)
    requires
        0 <= from <= order.len(),
    ensures
        match first_same_place(found, order, place, from) {
            Some(at) => {
                &&& from <= at < order.len()
                &&& is_same_place(found[order[at] as int], place)
                &&& forall|a: int|
                    from <= a < at ==> !is_same_place(found[#[trigger] order[a] as int], place)
            },
            None => forall|a: int|
                from <= a < order.len() ==> !is_same_place(
                    found[#[trigger] order[a] as int],
                    place,
                ),
        },
    decreases order.len() - from,
{
    if from < order.len() && !is_same_place(found[order[from] as int], place) {
        lemma_first_same_place(found, order, place, from + 1);
    }
}

/// Directories are arranged by their ranks, and among those of one rank their order stays: all
/// that were found are there, and nothing else changes but the selection.
pub proof fn law_arranged_by_rank(
    app: AppView,
    sessions: Seq<Place>,
    found: Seq<Place>,
    select_active: bool,
    after: AppView,
) -> (order: Seq<usize>)
    requires
        app.is_arranged(sessions, found, select_active, after),
        found.len() == app.zoxide_matches.len() <= usize::MAX,
        sessions.len() == app.sessions.len(),
    ensures
        names_all(order, found.len()),
        after == (AppView {
            zoxide_matches: after.zoxide_matches,
            zoxide_selected: after.zoxide_selected,
            ..app
        }),
        after.zoxide_matches.len() == found.len(),
        forall|a: int|
            0 <= a < found.len() ==> order[a] < found.len() && #[trigger] after.zoxide_matches[a]
                == app.zoxide_matches[order[a] as int],
        forall|a: int, b: int|
            0 <= a < b < found.len() ==> {
                let x = rank(
                    app.sessions,
                    sessions,
                    app.active_session,
                    found[#[trigger] order[a] as int],
                );
                let y = rank(
                    app.sessions,
                    sessions,
                    app.active_session,
                    found[#[trigger] order[b] as int],
                );
                x < y || x == y && order[a] < order[b]
            },
        !select_active || (forall|k: int|
            0 <= k < app.sessions.len() ==> Some((#[trigger] app.sessions[k]).name@) != (
            match app.active_session {
                Some(name) => Some(name@),
                None => None,
            })) ==> after.zoxide_selected == if found.len() == 0 {
            0
        } else if app.zoxide_selected < found.len() {
            app.zoxide_selected as int
        } else {
            found.len() - 1
        },
{
    let keys = app.rank_keys(sessions, found);
    let order = choose|order: Seq<usize>| #[trigger]
        is_order(keys, order) && after == (AppView {
            zoxide_matches: order.map_values(|i: usize| app.zoxide_matches[i as int]),
            zoxide_selected: app.arranged_selection(sessions, found, order, select_active),
            ..app
        });
    lemma_order_names_all(keys, order);
    assert forall|a: int, b: int| 0 <= a < b < found.len() implies {
        let x = rank(
            app.sessions,
            sessions,
            app.active_session,
            found[#[trigger] order[a] as int],
        );
        let y = rank(
            app.sessions,
            sessions,
            app.active_session,
            found[#[trigger] order[b] as int],
        );
        x < y || x == y && order[a] < order[b]
    } by {
        assert(crate::ui::zoxide::comes_before(keys, order[a] as int, order[b] as int));
        assert(order[a] < keys.len() && order[b] < keys.len());
    }
    if let Some(name) = app.active_session {
        if forall|k: int|
            0 <= k < app.sessions.len() ==> Some((#[trigger] app.sessions[k]).name@) != Some(
                name@,
            ) {
            lemma_none_named(app.sessions, name@, 0);
        }
    }
    order
}

/// What is shown does not depend on what is selected.
proof fn lemma_visible_ignores_selection(app: AppView, selected: usize, n: int)
    ensures
        (AppView { selected, ..app }).visible_before(n) == app.visible_before(n),
    decreases n,
{
    let other = AppView { selected, ..app };
    if n > 0 {
        lemma_visible_ignores_selection(app, selected, n - 1);
        assert(other.is_visible(n - 1) == app.is_visible(n - 1)) by {
            assert(other.searched(n - 1) == app.searched(n - 1));
        }
    }
}

/// After the selection was matched with the search it is shown, if anything is, and matching it
/// again changes nothing.
pub proof fn law_synced_selection_is_shown(app: AppView)
    requires
        app.sessions.len() <= usize::MAX,
    ensures
        app.synced().visible() == app.visible(),
        app.visible().len() > 0 ==> app.visible().contains(app.synced().selected as int),
        app.synced().synced() == app.synced(),
{
    let n = app.sessions.len() as int;
    lemma_visible(app, n);
    lemma_visible_ignores_selection(app, app.synced().selected, n);
    if app.visible().len() > 0 {
        assert(app.visible().contains(app.visible()[0]));
    }
}

/// Moving up and then down, or down and then up, leads back to a selection that is shown.
pub proof fn law_moving_there_and_back(app: AppView)
    requires
        app.sessions.len() <= usize::MAX,
        app.visible().contains(app.selected as int),
    ensures
        app.moved_up().moved_down() == app,
        app.moved_down().moved_up() == app,
{
    let n = app.sessions.len() as int;
    let visible = app.visible();
    lemma_visible(app, n);
    let at = choose|k: int| 0 <= k < visible.len() && visible[k] == app.selected;
    lemma_first_place(visible, app.selected as int, at);
    let up = app.moved_up();
    let down = app.moved_down();
    lemma_visible_ignores_selection(app, up.selected, n);
    lemma_visible_ignores_selection(app, down.selected, n);
    let above = if at == 0 {
        visible.len() - 1
    } else {
        at - 1
    };
    let below = if at + 1 == visible.len() {
        0
    } else {
        at + 1
    };
    assert(visible[above] == up.selected);
    assert(visible[below] == down.selected);
    lemma_first_place(visible, up.selected as int, above);
    lemma_first_place(visible, down.selected as int, below);
}

/// The same among the directories.
pub proof fn law_zoxide_moving_there_and_back(app: AppView)
    requires
        app.wf(),
        app.zoxide_matches.len() <= usize::MAX,
    ensures
        app.zoxide_moved_up().zoxide_moved_down() == app,
        app.zoxide_moved_down().zoxide_moved_up() == app,
{
}

/// A session that is selected stays selected when the list changes, as long as it is in the
/// list, under a name that no other has, and is shown.
pub proof fn law_refresh_keeps_selection(app: AppView, sessions: Seq<SessionInfo>, i: int)
    requires
        app.selected < app.sessions.len(),
        0 <= i < sessions.len() <= usize::MAX,
        sessions[i].name@ == app.sessions[app.selected as int].name@,
        forall|k: int| 0 <= k < sessions.len() && k != i ==> (#[trigger] sessions[k]).name@
            != sessions[i].name@,
        (AppView { sessions, ..app }).visible().contains(i),
    ensures
        app.refreshed(sessions).selected == i,
{
    let name = sessions[i].name@;
    lemma_first_named(sessions, name, 0, i);
    assert(app.reselected(sessions) == i);
    let moved = AppView { sessions, selected: i as usize, ..app };
    lemma_visible_ignores_selection(
        AppView { sessions, ..app },
        i as usize,
        sessions.len() as int,
    );
    assert(moved == AppView { selected: i as usize, ..(AppView { sessions, ..app }) });
    assert(moved.visible().contains(i));
}

proof fn lemma_first_named(sessions: Seq<SessionInfo>, name: Seq<char>, from: int, i: int)
    requires
        0 <= from <= i < sessions.len(),
        sessions[i].name@ == name,
        forall|k: int| from <= k < i ==> (#[trigger] sessions[k]).name@ != name,
    ensures
        first_named(sessions, name, from) == Some(i),
    decreases i - from,
{
    if from < i {
        assert(sessions[from].name@ != name);
        lemma_first_named(sessions, name, from + 1, i);
    }
}

} // verus!
