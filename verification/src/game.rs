use vstd::prelude::*;

verus! {

/// The games whose draw history can be queried.
#[derive(Clone, Copy, Debug, PartialEq, Eq, Structural)]
pub enum GameType {
    /// SG飛艇
    SGFeiTing,
    /// 幸運飛艇
    XingYunFeiTing,
    /// 急速飛艇
    JiSuFeiTing,
    /// 急速賽車
    JiSuSaiChe,
}

/// The lottery code that the draw-history service knows the game by.
pub open spec fn game_code(g: GameType) -> Seq<char> {
    match g {
        GameType::SGFeiTing => "SGFT"@,
        GameType::XingYunFeiTing => "XYFT"@,
        GameType::JiSuFeiTing => "LUCKYSB"@,
        GameType::JiSuSaiChe => "PK10JSC"@,
    }
}

/// The name the game is shown under.
pub open spec fn game_name(g: GameType) -> Seq<char> {
    match g {
        GameType::SGFeiTing => "SG飛艇"@,
        GameType::XingYunFeiTing => "幸運飛艇"@,
        GameType::JiSuFeiTing => "急速飛艇"@,
        GameType::JiSuSaiChe => "急速賽車"@,
    }
}

/// The position of the game in the selection row.
pub open spec fn game_slot(g: GameType) -> int {
    match g {
        GameType::SGFeiTing => 0,
        GameType::XingYunFeiTing => 1,
        GameType::JiSuFeiTing => 2,
        GameType::JiSuSaiChe => 3,
    }
}

impl GameType {
    /// The lottery code used in the draw-history request.
    pub fn to_url(&self) -> (code: &'static str)
        ensures
            code@ == game_code(*self),
    {
        match self {
            GameType::SGFeiTing => "SGFT",
            GameType::XingYunFeiTing => "XYFT",
            GameType::JiSuFeiTing => "LUCKYSB",
            GameType::JiSuSaiChe => "PK10JSC",
        }
    }

    /// The displayed name of the game.
    pub fn to_name(&self) -> (name: &'static str)
        ensures
            name@ == game_name(*self),
    {
        match self {
            GameType::SGFeiTing => "SG飛艇",
            GameType::XingYunFeiTing => "幸運飛艇",
            GameType::JiSuFeiTing => "急速飛艇",
            GameType::JiSuSaiChe => "急速賽車",
        }
    }
}

} // verus!
