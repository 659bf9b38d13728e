//! Mappings: per-domain selectors over a repository's tree, each with a
//! fixed on-device destination and a fixed ignore set applied at the
//! destination root during remote walks.

use vstd::prelude::*;

verus! {

/// The exclude marker prefixed to pathspec entries that subtract from the
/// match set.
pub open spec fn exclude_marker() -> Seq<char> {
    ":(exclude)"@
}

/// Include and exclude pathspec lists of one mapping. Excludes are stored
/// as the user wrote them; the marker is prefixed when the pattern list is
/// assembled.
#[derive(Debug)]
pub struct MappingEntry {
    pub includes: Vec<String>,
    pub exclude: Vec<String>,
}

impl MappingEntry {
    /// The full pattern list: includes as they stand, then each exclude
    /// with the exclude marker prefixed.
    pub fn patterns(&self) -> (r: Vec<String>)
        ensures
            r.deep_view() == self.includes.deep_view() + self.exclude.deep_view().map_values(
                |s: Seq<char>| exclude_marker() + s,
            ),
    {
        let mut r: Vec<String> = Vec::new();
        let n = self.includes.len();
        let mut i: usize = 0;
        while i < n
            invariant
                n == self.includes@.len(),
                i <= n,
                r@.len() == i,
                r.deep_view() =~= self.includes.deep_view().subrange(0, i as int),
            decreases n - i,
        {
            r.push(self.includes[i].clone());
            proof {
                let rv: Seq<Seq<char>> = r.deep_view();
                let iv: Seq<Seq<char>> = self.includes.deep_view();
                assert(rv.len() == r@.len());
                assert(iv.len() == self.includes@.len());
                assert forall|j: int| 0 <= j < rv.len() implies rv[j] == iv.subrange(
                    0,
                    i + 1,
                )[j] by {
                    assert(rv[j] == r@[j]@);
                    assert(iv[j] == self.includes@[j]@);
                }
                assert(rv =~= iv.subrange(0, i + 1));
            }
            i = i + 1;
        }
        let m = self.exclude.len();
        let mut k: usize = 0;
        proof {
            assert(self.includes.deep_view().subrange(0, n as int) =~= self.includes.deep_view());
        }
        while k < m
            invariant
                n == self.includes@.len(),
                m == self.exclude@.len(),
                k <= m,
                r@.len() == n + k,
                r.deep_view() =~= self.includes.deep_view() + self.exclude.deep_view().map_values(
                    |s: Seq<char>| exclude_marker() + s,
                ).subrange(0, k as int),
            decreases m - k,
        {
            let mut entry = String::from_str(":(exclude)");
            entry.append(self.exclude[k].as_str());
            proof {
                assert(entry@ == exclude_marker() + self.exclude@[k as int]@);
            }
            let ghost pre: Seq<Seq<char>> = r.deep_view();
            let ghost pre_len = r@.len();
            r.push(entry);
            proof {
                let rv: Seq<Seq<char>> = r.deep_view();
                let iv: Seq<Seq<char>> = self.includes.deep_view();
                let ev: Seq<Seq<char>> = self.exclude.deep_view().map_values(
                    |s: Seq<char>| exclude_marker() + s,
                );
                assert(rv.len() == r@.len());
                assert(pre.len() == pre_len);
                assert(ev.len() == self.exclude@.len());
                assert(ev[k as int] == exclude_marker() + self.exclude@[k as int]@) by {
                    assert(self.exclude.deep_view()[k as int] == self.exclude@[k as int]@);
                }
                assert forall|j: int| 0 <= j < rv.len() implies rv[j] == (iv + ev.subrange(
                    0,
                    k + 1,
                ))[j] by {
                    assert(rv[j] == r@[j]@);
                    if j < pre_len {
                        assert(pre[j] == (iv + ev.subrange(0, k as int))[j]);
                        assert(pre[j] == r@[j]@);
                    }
                }
                assert(rv =~= iv + ev.subrange(0, k + 1));
            }
            k = k + 1;
        }
        proof {
            let ev: Seq<Seq<char>> = self.exclude.deep_view().map_values(
                |s: Seq<char>| exclude_marker() + s,
            );
            assert(ev.len() == self.exclude@.len());
            assert(ev.subrange(0, m as int) =~= ev);
        }
        r
    }
}

/// All six optional mapping slots, one per device-database domain.
#[derive(Debug)]
pub struct Mappings {
    pub ibutton: Option<MappingEntry>,
    pub subghz: Option<MappingEntry>,
    pub badusb: Option<MappingEntry>,
    pub rfid: Option<MappingEntry>,
    pub nfc: Option<MappingEntry>,
    pub ir: Option<MappingEntry>,
}

impl Mappings {
    /// Empty mappings: every slot absent.
    pub fn new() -> (r: Mappings)
        ensures
            r.ibutton is None,
            r.subghz is None,
            r.badusb is None,
            r.rfid is None,
            r.nfc is None,
            r.ir is None,
    {
        Mappings {
            ibutton: None,
            subghz: None,
            badusb: None,
            rfid: None,
            nfc: None,
            ir: None,
        }
    }

    /// The present mappings, in the fixed slot order.
    pub fn iter(&self) -> (r: Vec<Mapping>)
        ensures
            r@ == spec_mapping_seq(self),
    {
        let mut r: Vec<Mapping> = Vec::new();
        if let Some(e) = &self.ibutton {
            r.push(Mapping::IButton(e));
        }
        if let Some(e) = &self.subghz {
            r.push(Mapping::SubGHz(e));
        }
        if let Some(e) = &self.badusb {
            r.push(Mapping::BadUSB(e));
        }
        if let Some(e) = &self.rfid {
            r.push(Mapping::Rfid(e));
        }
        if let Some(e) = &self.nfc {
            r.push(Mapping::Nfc(e));
        }
        if let Some(e) = &self.ir {
            r.push(Mapping::IR(e));
        }
        proof {
            assert(r@ =~= spec_mapping_seq(self));
        }
        r
    }
}

/// The present mappings of `m`, in the fixed slot order.
pub open spec fn spec_mapping_seq<'a>(m: &'a Mappings) -> Seq<Mapping<'a>> {
    (match m.ibutton {
        Some(ref e) => seq![Mapping::IButton(e)],
        None => Seq::empty(),
    }) + (match m.subghz {
        Some(ref e) => seq![Mapping::SubGHz(e)],
        None => Seq::empty(),
    }) + (match m.badusb {
        Some(ref e) => seq![Mapping::BadUSB(e)],
        None => Seq::empty(),
    }) + (match m.rfid {
        Some(ref e) => seq![Mapping::Rfid(e)],
        None => Seq::empty(),
    }) + (match m.nfc {
        Some(ref e) => seq![Mapping::Nfc(e)],
        None => Seq::empty(),
    }) + (match m.ir {
        Some(ref e) => seq![Mapping::IR(e)],
        None => Seq::empty(),
    })
}

/// One present mapping, tagged with its domain.
#[derive(Debug)]
pub enum Mapping<'a> {
    SubGHz(&'a MappingEntry),
    Rfid(&'a MappingEntry),
    Nfc(&'a MappingEntry),
    IR(&'a MappingEntry),
    IButton(&'a MappingEntry),
    BadUSB(&'a MappingEntry),
}

/// A mapping's patterns with its fixed destination and ignore set.
#[derive(Debug)]
pub struct MappingInfo<'a> {
    pub patterns: &'a MappingEntry,
    pub destination: String,
    pub ignore: Vec<String>,
}

impl Mapping<'_> {
    /// The fixed destination and root-level ignore set of this mapping's
    /// domain, with its pattern entry.
    pub fn info(&self) -> (r: MappingInfo)
        ensures
            (match self {
                Mapping::SubGHz(e) => r.patterns == *e && r.destination@ == "/ext/subghz"@
                    && r.ignore.deep_view() =~= seq!["assets"@],
                Mapping::Nfc(e) => r.patterns == *e && r.destination@ == "/ext/nfc"@
                    && r.ignore.deep_view() =~= seq!["assets"@, ".cache"@],
                Mapping::BadUSB(e) => r.patterns == *e && r.destination@ == "/ext/badusb"@
                    && r.ignore.deep_view() =~= seq!["assets"@, ".badusb.settings"@],
                Mapping::Rfid(e) => r.patterns == *e && r.destination@ == "/ext/lfrfid"@
                    && r.ignore.deep_view() =~= Seq::<Seq<char>>::empty(),
                Mapping::IButton(e) => r.patterns == *e && r.destination@ == "/ext/ibutton"@
                    && r.ignore.deep_view() =~= Seq::<Seq<char>>::empty(),
                Mapping::IR(e) => r.patterns == *e && r.destination@ == "/ext/infared"@
                    && r.ignore.deep_view() =~= seq!["assets"@],
            }),
    {
        match self {
            Mapping::SubGHz(e) => {
                let mut ignore: Vec<String> = Vec::new();
                ignore.push(String::from_str("assets"));
                let r = MappingInfo {
                    patterns: e,
                    destination: String::from_str("/ext/subghz"),
                    ignore,
                };
                proof {
                    assert(r.ignore.deep_view() =~= seq!["assets"@]);
                }
                r
            },
            Mapping::Nfc(e) => {
                let mut ignore: Vec<String> = Vec::new();
                ignore.push(String::from_str("assets"));
                ignore.push(String::from_str(".cache"));
                let r = MappingInfo {
                    patterns: e,
                    destination: String::from_str("/ext/nfc"),
                    ignore,
                };
                proof {
                    assert(r.ignore.deep_view() =~= seq!["assets"@, ".cache"@]);
                }
                r
            },
            Mapping::BadUSB(e) => {
                let mut ignore: Vec<String> = Vec::new();
                ignore.push(String::from_str("assets"));
                ignore.push(String::from_str(".badusb.settings"));
                let r = MappingInfo {
                    patterns: e,
                    destination: String::from_str("/ext/badusb"),
                    ignore,
                };
                proof {
                    assert(r.ignore.deep_view() =~= seq!["assets"@, ".badusb.settings"@]);
                }
                r
            },
            Mapping::Rfid(e) => {
                let r = MappingInfo {
                    patterns: e,
                    destination: String::from_str("/ext/lfrfid"),
                    ignore: Vec::new(),
                };
                proof {
                    assert(r.ignore.deep_view() =~= Seq::<Seq<char>>::empty());
                }
                r
            },
            Mapping::IButton(e) => {
                let r = MappingInfo {
                    patterns: e,
                    destination: String::from_str("/ext/ibutton"),
                    ignore: Vec::new(),
                };
                proof {
                    assert(r.ignore.deep_view() =~= Seq::<Seq<char>>::empty());
                }
                r
            },
            Mapping::IR(e) => {
                let mut ignore: Vec<String> = Vec::new();
                ignore.push(String::from_str("assets"));
                let r = MappingInfo {
                    patterns: e,
                    destination: String::from_str("/ext/infared"),
                    ignore,
                };
                proof {
                    assert(r.ignore.deep_view() =~= seq!["assets"@]);
                }
                r
            },
        }
    }
}

/// Adds an include pattern to a mapping slot, creating the slot if absent.
pub fn add_include(mapping: &mut Option<MappingEntry>, path: String)
    ensures
        (match *old(mapping) {
            Some(e) => (*final(mapping)) matches Some(e2) && e2.includes.deep_view()
                == e.includes.deep_view().push(path@) && e2.exclude.deep_view()
                == e.exclude.deep_view(),
            None => (*final(mapping)) matches Some(e2) && e2.includes.deep_view() == seq![path@]
                && e2.exclude.deep_view() == Seq::<Seq<char>>::empty(),
        }),
{
    let ghost pv = path@;
    match mapping {
        Some(existing) => {
            let ghost pre = existing.includes.deep_view();
            existing.includes.push(path);
            proof {
                let dv: Seq<Seq<char>> = existing.includes.deep_view();
                assert(dv.len() == existing.includes@.len());
                assert forall|j: int| 0 <= j < dv.len() implies dv[j] == pre.push(pv)[j] by {
                    assert(dv[j] == existing.includes@[j]@);
                }
                assert(dv =~= pre.push(pv));
            }
        },
        None => {
            let mut includes: Vec<String> = Vec::new();
            includes.push(path);
            let entry = MappingEntry { includes, exclude: Vec::new() };
            proof {
                assert(entry.includes.deep_view() =~= seq![pv]);
                assert(entry.exclude.deep_view() =~= Seq::<Seq<char>>::empty());
            }
            *mapping = Some(entry);
        },
    }
}

/// Adds an exclude pattern to a mapping slot, creating the slot if absent.
/// The exclude marker is prefixed later, when the pattern list is
/// assembled.
pub fn add_exclude(mapping: &mut Option<MappingEntry>, path: String)
    ensures
        (match *old(mapping) {
            Some(e) => (*final(mapping)) matches Some(e2) && e2.exclude.deep_view()
                == e.exclude.deep_view().push(path@) && e2.includes.deep_view()
                == e.includes.deep_view(),
            None => (*final(mapping)) matches Some(e2) && e2.exclude.deep_view() == seq![path@]
                && e2.includes.deep_view() == Seq::<Seq<char>>::empty(),
        }),
{
    let ghost pv = path@;
    match mapping {
        Some(existing) => {
            let ghost pre = existing.exclude.deep_view();
            existing.exclude.push(path);
            proof {
                let dv: Seq<Seq<char>> = existing.exclude.deep_view();
                assert(dv.len() == existing.exclude@.len());
                assert forall|j: int| 0 <= j < dv.len() implies dv[j] == pre.push(pv)[j] by {
                    assert(dv[j] == existing.exclude@[j]@);
                }
                assert(dv =~= pre.push(pv));
            }
        },
        None => {
            let mut exclude: Vec<String> = Vec::new();
            exclude.push(path);
            let entry = MappingEntry { includes: Vec::new(), exclude };
            proof {
                assert(entry.exclude.deep_view() =~= seq![pv]);
                assert(entry.includes.deep_view() =~= Seq::<Seq<char>>::empty());
            }
            *mapping = Some(entry);
        },
    }
}

} // verus!
