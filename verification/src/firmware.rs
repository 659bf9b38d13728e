//! The firmware selection and its configuration-string grammar:
//! `<source>@<channel>` for the published sources, any parseable URL for a
//! custom artifact.

use vstd::prelude::*;

use crate::directory::{Id, MOMENTUM_DIRECTORY, OFFICIAL_DIRECTORY, UNLEASHED_DIRECTORY};
use crate::paths::str_eq;
use crate::validators::{normalize_url, url_normal_of, url_ok_of};

verus! {

/// The selected firmware source.
#[derive(Debug, PartialEq, Eq)]
pub enum Firmware {
    Official(Id),
    Momentum(Id),
    Unleashed(Id),
    Custom(String),
}

impl Default for Firmware {
    /// The default selection: the official release channel.
    fn default() -> (r: Firmware)
        ensures
            r == Firmware::Official(Id::Release),
    {
        Firmware::Official(Id::Release)
    }
}

/// The channel named by a firmware-string channel part, if any.
pub open spec fn spec_channel(ch: Seq<char>) -> Option<Id> {
    if ch == "release"@ {
        Some(Id::Release)
    } else if ch == "release-candidate"@ {
        Some(Id::ReleaseCanidate)
    } else if ch == "development"@ {
        Some(Id::Development)
    } else {
        None
    }
}

/// The firmware named by a `<source>@<channel>` pair, if the pair is in
/// the grammar.
pub open spec fn spec_grammar(src: Seq<char>, ch: Seq<char>) -> Option<Firmware> {
    match spec_channel(ch) {
        None => None,
        Some(id) => if src == "official"@ {
            Some(Firmware::Official(id))
        } else if src == "momentum"@ {
            Some(Firmware::Momentum(id))
        } else if src == "unleashed"@ {
            Some(Firmware::Unleashed(id))
        } else {
            None
        },
    }
}

/// Index of the first `@` in `s`, or `s.len()` if there is none.
pub open spec fn first_at(s: Seq<char>) -> int
    decreases s.len(),
{
    if s.len() == 0 {
        0
    } else if s[0] == '@' {
        0
    } else {
        1 + first_at(s.drop_first())
    }
}

/// `first_at` is in range, the character there is `@` when in range, and
/// no earlier character is.
pub proof fn lemma_first_at(s: Seq<char>)
    ensures
        0 <= first_at(s) <= s.len(),
        first_at(s) < s.len() ==> s[first_at(s)] == '@',
        forall|j: int| 0 <= j < first_at(s) ==> s[j] != '@',
    decreases s.len(),
{
    if s.len() > 0 && s[0] != '@' {
        lemma_first_at(s.drop_first());
        assert forall|j: int| 0 <= j < first_at(s) implies s[j] != '@' by {
            if j > 0 {
                assert(s.drop_first()[j - 1] != '@');
            }
        }
    }
}

/// The text was neither a known `<source>@<channel>` pair nor a URL the
/// parser accepts.
#[derive(Debug, Clone, Copy, PartialEq, Eq)]
pub struct FirmwareParseError;

impl Firmware {
    /// Parses a firmware configuration string: a known source and channel
    /// split at the first `@`, else any parseable URL in its normal form.
    pub fn parse(s: &String) -> (r: Result<Firmware, FirmwareParseError>)
        ensures
            ({
                let i = first_at(s@);
                let grammar = if i < s@.len() {
                    spec_grammar(s@.subrange(0, i), s@.subrange(i + 1, s@.len() as int))
                } else {
                    None
                };
                match grammar {
                    Some(f) => r == Ok::<Firmware, FirmwareParseError>(f),
                    None => {
                        &&& (r is Ok <==> url_ok_of(s@))
                        &&& (r matches Ok(f) ==> f matches Firmware::Custom(u) && u@
                            == url_normal_of(s@))
                    },
                }
            }),
    {
        let text = s.as_str();
        let n = text.unicode_len();
        let mut i: usize = 0;
        while i < n && text.get_char(i) != '@'
            invariant
                n == s@.len(),
                text@ == s@,
                i <= n,
                forall|j: int| 0 <= j < i ==> s@[j] != '@',
            decreases n - i,
        {
            i = i + 1;
        }
        proof {
            lemma_first_at(s@);
            assert(first_at(s@) == i) by {
                if first_at(s@) < i {
                    assert(s@[first_at(s@)] != '@');
                    assert(false);
                }
                if first_at(s@) > i {
                    if i < n {
                        assert(s@[i as int] == '@');
                        assert(false);
                    } else {
                        assert(false);
                    }
                }
            }
        }
        if i < n {
            let src = text.substring_char(0, i);
            let ch = text.substring_char(i + 1, n);
            proof {
                assert(src@ == s@.subrange(0, i as int));
                assert(ch@ == s@.subrange(i + 1, n as int));
            }
            let id = if str_eq(ch, "release") {
                Some(Id::Release)
            } else if str_eq(ch, "release-candidate") {
                Some(Id::ReleaseCanidate)
            } else if str_eq(ch, "development") {
                Some(Id::Development)
            } else {
                None
            };
            if let Some(id) = id {
                if str_eq(src, "official") {
                    return Ok(Firmware::Official(id));
                }
                if str_eq(src, "momentum") {
                    return Ok(Firmware::Momentum(id));
                }
                if str_eq(src, "unleashed") {
                    return Ok(Firmware::Unleashed(id));
                }
            }
        }
        match normalize_url(s) {
            Some(u) => Ok(Firmware::Custom(u)),
            None => Err(FirmwareParseError),
        }
    }

    /// The configuration string of this selection: `<source>@<channel>`
    /// for published sources, the URL itself for a custom one.
    pub fn to_config_string(&self) -> (r: String)
        ensures
            (match self {
                Firmware::Official(id) => r@ == "official@"@ + spec_channel_name(*id),
                Firmware::Momentum(id) => r@ == "momentum@"@ + spec_channel_name(*id),
                Firmware::Unleashed(id) => r@ == "unleashed@"@ + spec_channel_name(*id),
                Firmware::Custom(u) => r@ == u@,
            }),
    {
        match self {
            Firmware::Official(id) => {
                let mut r = String::from_str("official@");
                r.append(id.as_str());
                r
            },
            Firmware::Momentum(id) => {
                let mut r = String::from_str("momentum@");
                r.append(id.as_str());
                r
            },
            Firmware::Unleashed(id) => {
                let mut r = String::from_str("unleashed@");
                r.append(id.as_str());
                r
            },
            Firmware::Custom(u) => u.clone(),
        }
    }

    /// The directory manifest URL of a published source. A custom
    /// selection has no directory; callers match it out first.
    pub fn get_directory(&self) -> (r: &'static str)
        requires
            !(self matches Firmware::Custom(_)),
        ensures
            (match self {
                Firmware::Official(_) => r@ == OFFICIAL_DIRECTORY@,
                Firmware::Unleashed(_) => r@ == UNLEASHED_DIRECTORY@,
                Firmware::Momentum(_) => r@ == MOMENTUM_DIRECTORY@,
                Firmware::Custom(_) => false,
            }),
    {
        match self {
            Firmware::Official(_) => OFFICIAL_DIRECTORY,
            Firmware::Unleashed(_) => UNLEASHED_DIRECTORY,
            Firmware::Momentum(_) => MOMENTUM_DIRECTORY,
            Firmware::Custom(_) => {
                proof {
                    assert(false);
                }
                OFFICIAL_DIRECTORY
            },
        }
    }
}

/// The name of a channel, as written in firmware strings.
pub open spec fn spec_channel_name(id: Id) -> Seq<char> {
    match id {
        Id::Release => "release"@,
        Id::ReleaseCanidate => "release-candidate"@,
        Id::Development => "development"@,
    }
}

} // verus!
