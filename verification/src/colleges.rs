//! The club directory: every club with its colour and its crews.
//!
//! The decoded file is a run of groups, one per club, each closed by an empty
//! line:
//!
//! ```text
//! [name]
//! R <TAB> G <TAB> B
//! crew name <TAB> short_name
//! ...
//! ```
//!
//! Lines are trimmed before they are looked at, and a line that starts with
//! `!` is a comment.

use crate::text::{
    bytes_of, chars_of, parse_all, rfind, split, split_at, string_of, trim, trimmed,
};
use vstd::prelude::*;

verus! {

/// One boat of a club.
#[derive(Debug)]
pub struct Crew {
    /// The long name, as it is shown.
    pub name: String,
    /// The short name, by which the crew is found.
    pub alias: String,
}

/// A club, its colour and its crews in the order of the file.
#[derive(Debug)]
pub struct Club {
    name: String,
    colour: (u8, u8, u8),
    crews: Vec<Crew>,
}

/// All clubs of a directory, in the order of the file.
#[derive(Debug)]
pub struct Clubs(Vec<Club>);

/// Why a club directory was refused.
#[derive(Debug, PartialEq, Eq, Clone, Copy)]
pub enum ClubsError {
    /// A colour line does not hold three numbers from 0 to 255.
    InvalidColour,
}

/// A crew as plain text.
pub struct CrewView {
    pub name: Seq<char>,
    pub alias: Seq<char>,
}

/// A club as plain values.
pub struct ClubView {
    pub name: Seq<char>,
    pub colour: (u8, u8, u8),
    pub crews: Seq<CrewView>,
}

impl View for Crew {
    type V = CrewView;

    open spec fn view(&self) -> CrewView {
        CrewView { name: self.name@, alias: self.alias@ }
    }
}

/// The crews of a vector as plain text.
pub open spec fn crew_views(crews: Seq<Crew>) -> Seq<CrewView> {
    crews.map_values(|c: Crew| c@)
}

impl View for Club {
    type V = ClubView;

    closed spec fn view(&self) -> ClubView {
        ClubView { name: self.name@, colour: self.colour, crews: crew_views(self.crews@) }
    }
}

/// The clubs of a vector as plain values.
pub open spec fn club_views(clubs: Seq<Club>) -> Seq<ClubView> {
    clubs.map_values(|c: Club| c@)
}

impl View for Clubs {
    type V = Seq<ClubView>;

    closed spec fn view(&self) -> Seq<ClubView> {
        club_views(self.0@)
    }
}

/// The crews of all clubs: club after club, and within a club in its order.
pub open spec fn all_crews(clubs: Seq<ClubView>) -> Seq<CrewView> {
    clubs.map_values(|c: ClubView| c.crews).flatten()
}

/// What has been read of the group that is still open.
pub struct Group {
    pub name: Option<Seq<char>>,
    pub colour: Option<(u8, u8, u8)>,
    pub crews: Seq<CrewView>,
}

/// What has been read of a directory: the clubs of the closed groups, and
/// the open group.
pub struct Progress {
    pub clubs: Seq<ClubView>,
    pub group: Group,
}

/// A group of which nothing has been read.
pub open spec fn empty_group() -> Group {
    Group { name: None, colour: None, crews: Seq::empty() }
}

/// The colour that a trimmed line gives: its fields between tabs are all
/// numbers from 0 to 255, and there are three of them or more; the first
/// three count.
pub open spec fn colour_of(line: Seq<char>) -> Option<(u8, u8, u8)> {
    match bytes_of(split(line, '\t')) {
        Some(b) => if b.len() >= 3 {
            Some((b[0], b[1], b[2]))
        } else {
            None
        },
        None => None,
    }
}

/// The crew that a trimmed line gives: the trimmed texts before and behind
/// its last tab. A line without a tab gives none.
pub open spec fn crew_of(line: Seq<char>) -> Option<CrewView> {
    match line.index_of_last('\t') {
        Some(i) => Some(CrewView { name: trimmed(line.take(i)), alias: trimmed(line.skip(i + 1)) }),
        None => None,
    }
}

/// Whether a trimmed line is a comment.
pub open spec fn is_comment(line: Seq<char>) -> bool {
    line.len() > 0 && line[0] == '!'
}

/// Whether a trimmed line holds a club's name in square brackets.
pub open spec fn is_heading(line: Seq<char>) -> bool {
    line.len() > 0 && line[0] == '[' && line.last() == ']'
}

/// The clubs after the open group was closed: one more if the group had both
/// a name and a colour.
pub open spec fn closed_clubs(p: Progress) -> Seq<ClubView> {
    match (p.group.name, p.group.colour) {
        (Some(name), Some(colour)) => p.clubs.push(
            ClubView { name, colour, crews: p.group.crews },
        ),
        _ => p.clubs,
    }
}

/// What has been read after one more line.
pub open spec fn advance(p: Progress, raw: Seq<char>) -> Result<Progress, ClubsError> {
    let line = trimmed(raw);
    if is_comment(line) {
        Ok(p)
    } else if line.len() == 0 {
        Ok(Progress { clubs: closed_clubs(p), group: empty_group() })
    } else if is_heading(line) {
        Ok(
            Progress {
                clubs: p.clubs,
                group: Group {
                    name: Some(line.subrange(1, line.len() - 1)),
                    colour: p.group.colour,
                    crews: p.group.crews,
                },
            },
        )
    } else if p.group.colour is None {
        match colour_of(line) {
            Some(c) => Ok(
                Progress {
                    clubs: p.clubs,
                    group: Group { name: p.group.name, colour: Some(c), crews: p.group.crews },
                },
            ),
            None => Err(ClubsError::InvalidColour),
        }
    } else {
        match crew_of(line) {
            Some(crew) => Ok(
                Progress {
                    clubs: p.clubs,
                    group: Group {
                        name: p.group.name,
                        colour: p.group.colour,
                        crews: p.group.crews.push(crew),
                    },
                },
            ),
            None => Ok(p),
        }
    }
}

/// What has been read after `lines`, or the fault of the first line that has one.
pub open spec fn read_lines(lines: Seq<Seq<char>>) -> Result<Progress, ClubsError>
    decreases lines.len(),
{
    if lines.len() == 0 {
        Ok(Progress { clubs: Seq::empty(), group: empty_group() })
    } else {
        match read_lines(lines.drop_last()) {
            Ok(p) => advance(p, lines.last()),
            Err(e) => Err(e),
        }
    }
}

/// The clubs of a directory file, or why it has none.
///
/// A group counts once an empty line closes it. The text behind the last line
/// feed is a line too, so a file that ends in a line feed closes its last
/// group; one that ends in the middle of a line leaves it open.
pub open spec fn clubs_of(text: Seq<char>) -> Result<Seq<ClubView>, ClubsError> {
    match read_lines(split(text, '\n')) {
        Ok(p) => Ok(p.clubs),
        Err(e) => Err(e),
    }
}

/// A fault stays: no later line mends it.
pub proof fn lemma_read_lines_fault(lines: Seq<Seq<char>>, n: int)
    requires
        0 <= n <= lines.len(),
        read_lines(lines.take(n)) is Err,
    ensures
        read_lines(lines) == read_lines(lines.take(n)),
    decreases lines.len() - n,
{
    if n < lines.len() {
        assert(lines.take(n + 1).drop_last() == lines.take(n));
        lemma_read_lines_fault(lines, n + 1);
    } else {
        assert(lines.take(n) == lines);
    }
}

impl Club {
    /// The club's name.
    pub fn name(&self) -> (r: &String)
        ensures
            r@ == self@.name,
    {
        &self.name
    }

    /// The club's colour: red, green and blue.
    pub fn colour(&self) -> (r: (u8, u8, u8))
        ensures
            r == self@.colour,
    {
        self.colour
    }

    /// The club's crews, in the order of the file.
    pub fn crews(&self) -> (r: &Vec<Crew>)
        ensures
            crew_views(r@) == self@.crews,
    {
        &self.crews
    }
}

/// Reads the colour of a trimmed line.
fn parse_colour(line: &[char]) -> (r: Option<(u8, u8, u8)>)
    ensures
        r == colour_of(line@),
{
    let fields = split_at(line, '\t');
    proof {
        assert(fields@.map_values(|f: &[char]| f@) == split(line@, '\t'));
    }
    match parse_all(&fields) {
        Some(rgb) => {
            if rgb.len() >= 3 {
                Some((rgb[0], rgb[1], rgb[2]))
            } else {
                None
            }
        },
        None => None,
    }
}

/// Reads the crew of a trimmed line.
fn parse_crew(line: &[char]) -> (r: Option<Crew>)
    ensures
        match r {
            Some(crew) => crew_of(line@) == Some(crew@),
            None => crew_of(line@) is None,
        },
{
    match rfind(line, '\t') {
        Some(i) => {
            proof {
                line@.index_of_last_ensures('\t');
            }
            let end = line.len();
            let name = trim(vstd::slice::slice_subrange(line, 0, i));
            let alias = trim(vstd::slice::slice_subrange(line, i + 1, end));
            Some(Crew { name: string_of(name), alias: string_of(alias) })
        },
        None => None,
    }
}

impl Clubs {
    /// The crews of all clubs: club after club, and within a club in its order.
    pub fn crews(&self) -> (r: Vec<&Crew>)
        ensures
            r@.map_values(|c: &Crew| c@) == all_crews(self@),
    {
        let mut out: Vec<&Crew> = Vec::new();
        let ghost lists = self@.map_values(|c: ClubView| c.crews);
        let mut i: usize = 0;
        while i < self.0.len()
            invariant
                0 <= i <= self.0@.len(),
                lists == self@.map_values(|c: ClubView| c.crews),
                lists.len() == self.0@.len(),
                out@.map_values(|c: &Crew| c@) == lists.take(i as int).flatten(),
            decreases self.0@.len() - i,
        {
            let club = &self.0[i];
            let ghost before = out@.map_values(|c: &Crew| c@);
            let mut j: usize = 0;
            while j < club.crews.len()
                invariant
                    0 <= j <= club.crews@.len(),
                    out@.map_values(|c: &Crew| c@) == before + crew_views(club.crews@).take(
                        j as int,
                    ),
                decreases club.crews@.len() - j,
            {
                let ghost so_far = out@.map_values(|c: &Crew| c@);
                out.push(&club.crews[j]);
                proof {
                    assert(out@.map_values(|c: &Crew| c@) == so_far.push(club.crews@[j as int]@));
                    assert(crew_views(club.crews@).take(j + 1) == crew_views(club.crews@).take(
                        j as int,
                    ).push(club.crews@[j as int]@));
                }
                j += 1;
            }
            proof {
                assert(crew_views(club.crews@).take(j as int) == crew_views(club.crews@));
                assert(lists[i as int] == crew_views(club.crews@));
                lists.take(i as int).lemma_flatten_push(lists[i as int]);
                assert(lists.take(i as int).push(lists[i as int]) == lists.take(i + 1));
            }
            i += 1;
        }
        proof {
            assert(lists.take(i as int) == lists);
        }
        out
    }

    /// The clubs, in the order of the file.
    pub fn clubs(&self) -> (r: &Vec<Club>)
        ensures
            club_views(r@) == self@,
    {
        &self.0
    }

    /// Reads the decoded contents of a club directory.
    pub fn from_file(file: &str) -> (r: Result<Clubs, ClubsError>)
        ensures
            match r {
                Ok(clubs) => clubs_of(file@) == Ok::<Seq<ClubView>, ClubsError>(clubs@),
                Err(e) => clubs_of(file@) == Err::<Seq<ClubView>, ClubsError>(e),
            },
    {
        let chars = chars_of(file);
        let lines = split_at(chars.as_slice(), '\n');
        let ghost texts = split(file@, '\n');

        let mut clubs: Vec<Club> = Vec::new();
        let mut current_name: Option<&[char]> = None;
        let mut current_colour: Option<(u8, u8, u8)> = None;
        let mut current_crews: Vec<Crew> = Vec::new();

        let mut i: usize = 0;
        proof {
            assert(club_views(clubs@) == Seq::<ClubView>::empty());
            assert(crew_views(current_crews@) == Seq::<CrewView>::empty());
            assert(texts.take(0).len() == 0);
        }
        while i < lines.len()
            invariant
                0 <= i <= lines@.len(),
                texts == split(file@, '\n'),
                lines@.len() == texts.len(),
                forall|k: int| 0 <= k < lines@.len() ==> (#[trigger] lines@[k])@ == texts[k],
                read_lines(texts.take(i as int)) == Ok::<Progress, ClubsError>(
                    Progress {
                        clubs: club_views(clubs@),
                        group: Group {
                            name: match current_name {
                                Some(n) => Some(n@),
                                None => None,
                            },
                            colour: current_colour,
                            crews: crew_views(current_crews@),
                        },
                    },
                ),
            decreases lines@.len() - i,
        {
            proof {
                assert(texts.take(i + 1).drop_last() == texts.take(i as int));
                assert(texts.take(i + 1).last() == lines@[i as int]@);
            }
            let line = trim(lines[i]);
            let end = line.len();
            if end > 0 && line[0] == '!' {
            } else if end == 0 {
                if let Some(name) = current_name {
                    if let Some(colour) = current_colour {
                        let ghost before = club_views(clubs@);
                        let club = Club { name: string_of(name), colour, crews: current_crews };
                        clubs.push(club);
                        proof {
                            assert(club_views(clubs@) == before.push(club@));
                        }
                    }
                }
                current_name = None;
                current_colour = None;
                current_crews = Vec::new();
                proof {
                    assert(crew_views(current_crews@) == Seq::<CrewView>::empty());
                }
            } else if line[0] == '[' && line[end - 1] == ']' {
                current_name = Some(vstd::slice::slice_subrange(line, 1, end - 1));
            } else if current_colour.is_none() {
                match parse_colour(line) {
                    Some(colour) => {
                        current_colour = Some(colour);
                    },
                    None => {
                        proof {
                            assert(read_lines(texts.take(i + 1)) == Err::<Progress, ClubsError>(
                                ClubsError::InvalidColour,
                            ));
                            lemma_read_lines_fault(texts, i + 1);
                        }
                        return Err(ClubsError::InvalidColour);
                    },
                }
            } else if let Some(crew) = parse_crew(line) {
                let ghost before = crew_views(current_crews@);
                current_crews.push(crew);
                proof {
                    assert(crew_views(current_crews@) == before.push(crew@));
                }
            }
            i += 1;
        }
        proof {
            assert(texts.take(i as int) == texts);
        }
        Ok(Clubs(clubs))
    }
}

} // verus!
