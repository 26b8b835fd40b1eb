use vstd::prelude::*;
use crate::game::{GameType, game_code, game_slot};
use crate::draw::DrawResult;
use crate::text::{trimmed, decimal_text, chars_of, trim_chars, push_decimal};
use crate::search::{
    scan_overruns, pattern_matches, first_pattern_match, same_groups, same_draws,
    all_pattern_matches, first_pattern_match_of, scan_would_overrun,
};
use crate::clock::{beijing_time, clock_text, time_with_millis, BEIJING_OFFSET_SECS, MILLIS_THRESHOLD};

verus! {

/// Which game is selected: one mark per game in the selection row, set for
/// the current game and for no other.
pub struct GameSelection {
    current: GameType,
    checked: Vec<bool>,
}

impl GameSelection {
    #[verifier::type_invariant]
    spec fn marks_current(self) -> bool {
        &&& self.checked@.len() == 4
        &&& forall|i: int| 0 <= i < 4 ==> self.checked@[i] == (i == game_slot(self.current))
    }

    /// The selected game.
    pub closed spec fn game(self) -> GameType {
        self.current
    }

    /// The marks of the selection row, one per game.
    pub closed spec fn marks(self) -> Seq<bool> {
        self.checked@
    }

    /// The selection of `game`: its mark set, the others cleared.
    pub fn of(game: GameType) -> (s: GameSelection)
        ensures
            s.game() == game,
            s.marks() == marks_for(game),
    {
        let slot = game.slot();
        let mut checked: Vec<bool> = Vec::new();
        for i in 0..4usize
            invariant
                slot as int == game_slot(game),
                checked@.len() == i,
                forall|k: int| 0 <= k < i ==> checked@[k] == (k == game_slot(game)),
        {
            checked.push(i == slot);
        }
        assert(checked@ =~= marks_for(game));
        GameSelection { current: game, checked }
    }
}

/// The marks of the selection row when `game` is selected.
pub open spec fn marks_for(game: GameType) -> Seq<bool> {
    Seq::new(4, |i: int| i == game_slot(game))
}

impl GameType {
    /// The position of the game in the selection row.
    pub fn slot(&self) -> (i: usize)
        ensures
            i as int == game_slot(*self),
    {
        match self {
            GameType::SGFeiTing => 0,
            GameType::XingYunFeiTing => 1,
            GameType::JiSuFeiTing => 2,
            GameType::JiSuSaiChe => 3,
        }
    }
}

/// What the viewer holds, as plain values.
pub struct ViewerState {
    pub draws: Seq<DrawResult>,
    pub filter: Seq<char>,
    pub status: Seq<char>,
    pub cookie: Seq<char>,
    pub game: GameType,
    pub marks: Seq<bool>,
}

/// The draw-history viewer: the loaded draws of the selected game, the
/// pattern being looked for, the status line, and the login cookie.
pub struct MyApp {
    draws: Vec<DrawResult>,
    filter: String,
    status: String,
    cookie: String,
    selection: GameSelection,
}

impl View for MyApp {
    type V = ViewerState;

    closed spec fn view(&self) -> ViewerState {
        ViewerState {
            draws: self.draws@,
            filter: self.filter@,
            status: self.status@,
            cookie: self.cookie@,
            game: self.selection.game(),
            marks: self.selection.marks(),
        }
    }
}

/// The address that the draws of a game are fetched from.
pub open spec fn fetch_url(game: GameType) -> Seq<char> {
    "https://www.15678.vip/member/dayResult?lottery="@ + game_code(game)
}

/// The status line after a fetch that brought `count` draws.
pub open spec fn loaded_status(count: nat) -> Seq<char> {
    "✅ 共載入 "@ + decimal_text(count) + " 筆資料"@
}

/// The status line after a fetch that failed with the given message.
pub open spec fn failed_status(message: Seq<char>) -> Seq<char> {
    "❌ 載入失敗: "@ + message
}

/// The state of a freshly opened viewer.
pub open spec fn initial_state(s: ViewerState) -> bool {
    &&& s.draws.len() == 0
    &&& s.filter.len() == 0
    &&& s.status == "請點擊『獲取數據』"@
    &&& s.cookie.len() == 0
    &&& s.game == GameType::SGFeiTing
    &&& s.marks == marks_for(GameType::SGFeiTing)
}

impl MyApp {
    /// A viewer with nothing loaded, SG飛艇 selected, and a prompt to fetch.
    pub fn new() -> (app: MyApp)
        ensures
            initial_state(app@),
    {
        MyApp {
            draws: Vec::new(),
            filter: String::new(),
            status: String::from_str("請點擊『獲取數據』"),
            cookie: String::new(),
            selection: GameSelection::of(GameType::SGFeiTing),
        }
    }

    /// The loaded draws, in the order they arrived.
    pub fn draws(&self) -> (d: &Vec<DrawResult>)
        ensures
            d@ == self@.draws,
    {
        &self.draws
    }

    /// The pattern being looked for.
    pub fn filter(&self) -> (f: &str)
        ensures
            f@ == self@.filter,
    {
        self.filter.as_str()
    }

    /// The status line.
    pub fn status(&self) -> (s: &str)
        ensures
            s@ == self@.status,
    {
        self.status.as_str()
    }

    /// The login cookie sent with a fetch.
    pub fn cookie(&self) -> (c: &str)
        ensures
            c@ == self@.cookie,
    {
        self.cookie.as_str()
    }

    /// The selected game.
    pub fn current_game(&self) -> (g: GameType)
        ensures
            g == self@.game,
    {
        self.selection.current_game()
    }

    /// Whether the game's mark in the selection row is set: exactly when it
    /// is the selected game.
    pub fn is_game_checked(&self, game: GameType) -> (b: bool)
        ensures
            b == self@.marks[game_slot(game)],
            b == (game == self@.game),
    {
        self.selection.is_checked(game)
    }

    /// Replaces the pattern being looked for.
    pub fn set_filter(&mut self, filter: String)
        ensures
            final(self)@ == (ViewerState { filter: filter@, ..old(self)@ }),
    {
        self.filter = filter;
    }

    /// Replaces the login cookie.
    pub fn set_cookie(&mut self, cookie: String)
        ensures
            final(self)@ == (ViewerState { cookie: cookie@, ..old(self)@ }),
    {
        self.cookie = cookie;
    }

    /// Selects a game: its mark is set and the others cleared, and the draws
    /// of the previous game are dropped.
    pub fn select_game(&mut self, game: GameType)
        ensures
            final(self)@ == (ViewerState {
                game,
                marks: marks_for(game),
                draws: Seq::empty(),
                ..old(self)@
            }),
    {
        self.selection = GameSelection::of(game);
        self.draws.clear();
    }

    /// Starts a fetch. With a blank cookie (nothing but white space) the
    /// status asks for one and there is nothing to fetch; otherwise the status
    /// says a fetch is under way and the address of the selected game's draws
    /// is returned.
    pub fn begin_fetch(&mut self) -> (url: Option<String>)
        ensures
            trimmed(old(self)@.cookie).len() == 0 ==> {
                &&& url is None
                &&& final(self)@ == (ViewerState { status: "❌ 請先輸入Cookie後再獲取數據"@, ..old(self)@ })
            },
            trimmed(old(self)@.cookie).len() > 0 ==> {
                &&& url matches Some(u) && u@ == fetch_url(old(self)@.game)
                &&& final(self)@ == (ViewerState { status: "📡 資料抓取中..."@, ..old(self)@ })
            },
    {
        let chars = chars_of(self.cookie.as_str());
        let t = trim_chars(&chars);
        if t.len() == 0 {
            self.status = String::from_str("❌ 請先輸入Cookie後再獲取數據");
            return None;
        }
        let code = self.selection.current_game().to_url();
        self.status = String::from_str("📡 資料抓取中...");
        let mut url = String::from_str("https://www.15678.vip/member/dayResult?lottery=");
        url.append(code);
        Some(url)
    }

    /// Ends a fetch: the draws that arrived replace the loaded ones and the
    /// status gives their count; on failure the draws stay and the status
    /// gives the message.
    pub fn finish_fetch(&mut self, outcome: Result<Vec<DrawResult>, String>)
        ensures
            match outcome {
                Ok(d) => final(self)@ == (ViewerState {
                    draws: d@,
                    status: loaded_status(d@.len()),
                    ..old(self)@
                }),
                Err(m) => final(self)@ == (ViewerState { status: failed_status(m@), ..old(self)@ }),
            },
    {
        match outcome {
            Ok(data) => {
                let count = data.len();
                self.draws = data;
                let mut s = String::from_str("✅ 共載入 ");
                push_decimal(&mut s, count as u64);
                s.append(" 筆資料");
                assert(s@ =~= loaded_status(count as nat));
                self.status = s;
            },
            Err(message) => {
                let mut s = String::from_str("❌ 載入失敗: ");
                s.append(message.as_str());
                self.status = s;
            },
        }
    }

    /// Whether looking for `pattern` among the loaded draws would run off the
    /// end of them (see [`scan_overruns`]).
    pub fn pattern_overruns(&self, pattern: &str) -> (r: bool)
        ensures
            r == scan_overruns(self@.draws, pattern@),
    {
        scan_would_overrun(&self.draws, pattern)
    }

    /// Every stretch of consecutive draws, in draw-number order, whose first
    /// numbers follow the pattern step by step (`單`/`单` odd, `雙`/`双` even,
    /// `大` at least 6, `小` below 6), in order of where they start. Stretches
    /// may overlap. Nothing when there are no draws, the pattern is empty, or
    /// it names no step.
    pub fn find_all_consecutive_patterns(&self, pattern: &str) -> (r: Vec<Vec<&DrawResult>>)
        requires
            !scan_overruns(self@.draws, pattern@),
        ensures
            same_groups(r@, pattern_matches(self@.draws, pattern@)),
    {
        all_pattern_matches(&self.draws, pattern)
    }

    /// The earliest stretch that [`MyApp::find_all_consecutive_patterns`]
    /// would list, or no draws.
    pub fn find_consecutive_patterns(&self, pattern: &str) -> (r: Vec<&DrawResult>)
        requires
            !scan_overruns(self@.draws, pattern@),
        ensures
            same_draws(r@, first_pattern_match(self@.draws, pattern@)),
    {
        first_pattern_match_of(&self.draws, pattern)
    }

    /// A draw time in Beijing time (UTC+8) as `YYYY-MM-DD HH:MM:SS`, with
    /// `.mmm` appended when a millisecond timestamp has milliseconds; a
    /// timestamp above 10 000 000 000 is read as milliseconds, one up to it as
    /// seconds. `時間格式錯誤` where the time has no calendar date.
    pub fn timestamp_to_beijing_time(timestamp: u64) -> (r: String)
        ensures
            r@ == beijing_time(timestamp),
    {
        let secs: u64 = if timestamp > MILLIS_THRESHOLD {
            timestamp / 1000
        } else {
            timestamp
        };
        let millis: u64 = if timestamp > MILLIS_THRESHOLD {
            timestamp % 1000
        } else {
            0
        };
        let clock = clock_text(secs as i64, BEIJING_OFFSET_SECS);
        time_with_millis(clock, millis)
    }
}

impl GameSelection {
    /// The selected game.
    pub fn current_game(&self) -> (g: GameType)
        ensures
            g == self.game(),
    {
        self.current
    }

    /// Whether the game's mark is set: exactly when it is the selected game.
    pub fn is_checked(&self, game: GameType) -> (b: bool)
        ensures
            b == self.marks()[game_slot(game)],
            b == (game == self.game()),
    {
        proof {
            use_type_invariant(self);
        }
        self.checked[game.slot()]
    }
}

} // verus!
