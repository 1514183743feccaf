//! The five competitions whose results the data files hold.

use vstd::prelude::*;

verus! {

/// One of the competitions.
#[derive(Debug, PartialEq, Eq, Clone, Copy)]
pub enum Competition {
    Early,
    MenMays,
    WomenMays,
    MenLents,
    WomenLents,
}

/// The number under which a competition is stored.
pub open spec fn code_of(competition: Competition) -> i32 {
    match competition {
        Competition::Early => 0,
        Competition::MenMays => 1,
        Competition::WomenMays => 2,
        Competition::MenLents => 3,
        Competition::WomenLents => 4,
    }
}

/// The name of a competition in the names of its data files.
pub open spec fn raw_name_of(competition: Competition) -> Seq<char> {
    match competition {
        Competition::Early => "early"@,
        Competition::MenMays => "mays"@,
        Competition::WomenMays => "wmays"@,
        Competition::MenLents => "lents"@,
        Competition::WomenLents => "wlents"@,
    }
}

/// The name of a competition in the name of the directory of its year files.
pub open spec fn charts_name_of(competition: Competition) -> Seq<char> {
    match competition {
        Competition::Early => "Early"@,
        Competition::MenMays => "Mays"@,
        Competition::WomenMays => "WMays"@,
        Competition::MenLents => "Lents"@,
        Competition::WomenLents => "WLents"@,
    }
}

/// The words by which a competition is shown.
pub open spec fn description_of(competition: Competition) -> Seq<char> {
    match competition {
        Competition::Early => "early bumps"@,
        Competition::MenMays => "men's may bumps"@,
        Competition::WomenMays => "women's may bumps"@,
        Competition::MenLents => "men's may bumps"@,
        Competition::WomenLents => "women's may bumps"@,
    }
}

impl Competition {
    /// The competition that is stored under `code`, if there is one.
    pub fn from_i32(code: i32) -> (r: Option<Competition>)
        ensures
            match r {
                Some(competition) => code_of(competition) == code,
                None => code < 0 || code > 4,
            },
    {
        match code {
            0 => Some(Competition::Early),
            1 => Some(Competition::MenMays),
            2 => Some(Competition::WomenMays),
            3 => Some(Competition::MenLents),
            4 => Some(Competition::WomenLents),
            _ => None,
        }
    }

    /// The number under which the competition is stored.
    pub fn to_i32(&self) -> (r: i32)
        ensures
            r == code_of(*self),
            0 <= r <= 4,
    {
        match self {
            Competition::Early => 0,
            Competition::MenMays => 1,
            Competition::WomenMays => 2,
            Competition::MenLents => 3,
            Competition::WomenLents => 4,
        }
    }

    /// The name of the competition in the names of its data files.
    pub fn raw_name(&self) -> (r: &'static str)
        ensures
            r@ == raw_name_of(*self),
    {
        match self {
            Competition::Early => "early",
            Competition::MenMays => "mays",
            Competition::WomenMays => "wmays",
            Competition::MenLents => "lents",
            Competition::WomenLents => "wlents",
        }
    }

    /// The name of the competition in the name of the directory of its year
    /// files.
    pub fn charts_name(&self) -> (r: &'static str)
        ensures
            r@ == charts_name_of(*self),
    {
        match self {
            Competition::Early => "Early",
            Competition::MenMays => "Mays",
            Competition::WomenMays => "WMays",
            Competition::MenLents => "Lents",
            Competition::WomenLents => "WLents",
        }
    }

    /// The words by which the competition is shown.
    pub fn to_string(&self) -> (r: String)
        ensures
            r@ == description_of(*self),
    {
        let text = match self {
            Competition::Early => "early bumps",
            Competition::MenMays => "men's may bumps",
            Competition::WomenMays => "women's may bumps",
            Competition::MenLents => "men's may bumps",
            Competition::WomenLents => "women's may bumps",
        };
        text.to_owned()
    }
}

/// A competition is found again under its number, and no two competitions
/// share one.
pub proof fn lemma_code_round_trip(a: Competition, b: Competition)
    ensures
        0 <= code_of(a) <= 4,
        code_of(a) == code_of(b) ==> a == b,
{
}

} // verus!
