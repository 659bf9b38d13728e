//! Path text utilities: splitting slash-separated paths into components,
//! joining components back, and stripping the longest-common-directory
//! prefix that scopes a mapping's ops.

use vstd::prelude::*;

use crate::tree::{is_prefix_of, PathV};

verus! {

/// Character-wise string equality.
pub fn str_eq(a: &str, b: &str) -> (r: bool)
    ensures
        r <==> a@ == b@,
{
    let n = a.unicode_len();
    let m = b.unicode_len();
    if n != m {
        proof {
            assert(a@ != b@);
        }
        return false;
    }
    let mut i: usize = 0;
    while i < n
        invariant
            n == a@.len(),
            n == b@.len(),
            i <= n,
            forall|j: int| 0 <= j < i ==> a@[j] == b@[j],
        decreases n - i,
    {
        if a.get_char(i) != b.get_char(i) {
            return false;
        }
        i = i + 1;
    }
    proof {
        assert(a@ =~= b@);
    }
    true
}

/// Index of the first `/` in `s`, or `s.len()` if there is none.
pub open spec fn first_sep(s: Seq<char>) -> int
    decreases s.len(),
{
    if s.len() == 0 {
        0
    } else if s[0] == '/' {
        0
    } else {
        1 + first_sep(s.drop_first())
    }
}

/// `first_sep` is in range, the character there is `/` when in range, and
/// no earlier character is.
pub proof fn lemma_first_sep(s: Seq<char>)
    ensures
        0 <= first_sep(s) <= s.len(),
        first_sep(s) < s.len() ==> s[first_sep(s)] == '/',
        forall|j: int| 0 <= j < first_sep(s) ==> s[j] != '/',
    decreases s.len(),
{
    if s.len() > 0 && s[0] != '/' {
        lemma_first_sep(s.drop_first());
        assert forall|j: int| 0 <= j < first_sep(s) implies s[j] != '/' by {
            if j > 0 {
                assert(s.drop_first()[j - 1] != '/');
            }
        }
    }
}

/// The components of a slash-separated path: maximal `/`-free non-empty
/// substrings, in order.
pub open spec fn spec_split(s: Seq<char>) -> Seq<Seq<char>>
    decreases s.len(),
    via spec_split_decreases
{
    if s.len() == 0 {
        Seq::empty()
    } else {
        let i = first_sep(s);
        let head = s.subrange(0, i);
        let rest = if i < s.len() {
            spec_split(s.subrange(i + 1, s.len() as int))
        } else {
            Seq::<Seq<char>>::empty()
        };
        if head.len() == 0 {
            rest
        } else {
            seq![head] + rest
        }
    }
}

#[via_fn]
proof fn spec_split_decreases(s: Seq<char>) {
    lemma_first_sep(s);
}

/// Splits a slash-separated path into its components; empty components
/// (leading, trailing or doubled separators) are dropped.
pub fn split_path(s: &str) -> (r: Vec<String>)
    ensures
        r.deep_view() == spec_split(s@),
{
    let n = s.unicode_len();
    let mut r: Vec<String> = Vec::new();
    let mut cur: usize = 0;
    proof {
        assert(s@.subrange(0, n as int) =~= s@);
    }
    while cur < n
        invariant
            n == s@.len(),
            cur <= n,
            r.deep_view() + spec_split(s@.subrange(cur as int, n as int)) =~= spec_split(s@),
        decreases n - cur,
    {
        let ghost rem = s@.subrange(cur as int, n as int);
        let mut i: usize = cur;
        while i < n && s.get_char(i) != '/'
            invariant
                n == s@.len(),
                cur <= i <= n,
                forall|j: int| cur <= j < i ==> s@[j] != '/',
            decreases n - i,
        {
            i = i + 1;
        }
        proof {
            lemma_first_sep(rem);
            assert forall|j: int| 0 <= j < i - cur implies rem[j] != '/' by {
                assert(rem[j] == s@[cur + j]);
            }
            if i < n {
                assert(rem[i - cur] == s@[i as int]);
                assert(rem[i - cur] == '/');
            }
            assert(first_sep(rem) == i - cur) by {
                if first_sep(rem) < i - cur {
                    assert(rem[first_sep(rem)] != '/');
                    assert(false);
                }
                if first_sep(rem) > i - cur {
                    if i < n {
                        assert(rem[i - cur] != '/');
                        assert(false);
                    } else {
                        assert(first_sep(rem) <= rem.len());
                        assert(false);
                    }
                }
            }
        }
        let ghost pre_dv: Seq<Seq<char>> = r.deep_view();
        let ghost pre_len = r@.len();
        if i > cur {
            let piece = s.substring_char(cur, i);
            let part = piece.to_owned();
            proof {
                assert(part@ == rem.subrange(0, i - cur)) by {
                    assert(part@ == s@.subrange(cur as int, i as int));
                    assert(s@.subrange(cur as int, i as int) =~= rem.subrange(0, i - cur));
                }
            }
            r.push(part);
            proof {
                let dv: Seq<Seq<char>> = r.deep_view();
                assert(dv.len() == r@.len());
                assert(pre_dv.len() == pre_len);
                assert forall|j: int| 0 <= j < dv.len() implies dv[j] == pre_dv.push(
                    rem.subrange(0, i - cur),
                )[j] by {
                    assert(dv[j] == r@[j]@);
                    if j < pre_len {
                        assert(pre_dv[j] == r@[j]@);
                    }
                }
                assert(dv =~= pre_dv.push(rem.subrange(0, i - cur)));
            }
        }
        proof {
            let head = rem.subrange(0, i - cur);
            if i < n {
                assert(rem.subrange(i - cur + 1, rem.len() as int) =~= s@.subrange(
                    i + 1,
                    n as int,
                ));
                assert(spec_split(rem) == (if head.len() == 0 {
                    spec_split(s@.subrange(i + 1, n as int))
                } else {
                    seq![head] + spec_split(s@.subrange(i + 1, n as int))
                }));
            } else {
                assert(spec_split(rem) == (if head.len() == 0 {
                    Seq::<Seq<char>>::empty()
                } else {
                    seq![head]
                }));
                assert(s@.subrange(n as int, n as int) =~= Seq::<char>::empty());
            }
            if head.len() == 0 {
                assert(r.deep_view() == pre_dv);
            } else {
                assert(r.deep_view() =~= pre_dv + seq![head]);
            }
            if i < n {
                assert(r.deep_view() + spec_split(s@.subrange(i + 1, n as int)) =~= spec_split(
                    s@,
                ));
            } else {
                assert(r.deep_view() + spec_split(s@.subrange(n as int, n as int)) =~= spec_split(
                    s@,
                ));
            }
        }
        if i < n {
            cur = i + 1;
        } else {
            cur = n;
        }
    }
    proof {
        assert(s@.subrange(n as int, n as int) =~= Seq::<char>::empty());
        assert(r.deep_view() + Seq::<Seq<char>>::empty() =~= r.deep_view());
    }
    r
}

/// The slash-joined text of a component list.
pub open spec fn spec_join(parts: Seq<Seq<char>>) -> Seq<char>
    decreases parts.len(),
{
    if parts.len() == 0 {
        Seq::empty()
    } else if parts.len() == 1 {
        parts[0]
    } else {
        spec_join(parts.drop_last()) + seq!['/'] + parts.last()
    }
}

/// Joins components with `/`.
pub fn join_components(parts: &Vec<String>) -> (r: String)
    ensures
        r@ == spec_join(parts.deep_view()),
{
    let n = parts.len();
    let mut r = String::new();
    let mut i: usize = 0;
    proof {
        assert(parts.deep_view().len() == n);
    }
    while i < n
        invariant
            n == parts@.len(),
            n == parts.deep_view().len(),
            i <= n,
            r@ == spec_join(parts.deep_view().subrange(0, i as int)),
        decreases n - i,
    {
        if i > 0 {
            r.append("/");
        }
        r.append(parts[i].as_str());
        proof {
            let dv = parts.deep_view();
            assert(dv[i as int] == parts@[i as int]@);
            if i == 0 {
                assert(dv.subrange(0, 1).len() == 1);
                assert(dv.subrange(0, 1)[0] == dv[0]);
                assert(spec_join(dv.subrange(0, 1)) == dv[0]);
                assert(r@ == spec_join(dv.subrange(0, 0)) + dv[0]);
                assert(spec_join(dv.subrange(0, 0)) =~= Seq::<char>::empty());
                assert(r@ =~= spec_join(dv.subrange(0, 1)));
            } else {
                reveal_strlit("/");
                assert("/"@ =~= seq!['/']);
                assert(dv.subrange(0, i + 1).drop_last() =~= dv.subrange(0, i as int));
                assert(dv.subrange(0, i + 1).last() == dv[i as int]);
                assert(r@ =~= spec_join(dv.subrange(0, i + 1)));
            }
        }
        i = i + 1;
    }
    proof {
        assert(parts.deep_view().subrange(0, n as int) =~= parts.deep_view());
    }
    r
}

/// Strips the longest-common-directory prefix from a matched path. The
/// result is present exactly when `lcd` is a component prefix of `m`, and
/// then re-prefixing `lcd` reconstructs `m`.
pub fn strip_prefix_components(lcd: &Vec<String>, m: &Vec<String>) -> (r: Option<Vec<String>>)
    ensures
        r is Some <==> is_prefix_of(lcd.deep_view(), m.deep_view()),
        r matches Some(rel) ==> lcd.deep_view() + rel.deep_view() == m.deep_view(),
{
    let n = lcd.len();
    if n > m.len() {
        proof {
            assert(lcd.deep_view().len() == n);
            assert(m.deep_view().len() == m@.len());
        }
        return None;
    }
    let mut i: usize = 0;
    proof {
        assert(lcd.deep_view().len() == n);
        assert(m.deep_view().len() == m@.len());
    }
    while i < n
        invariant
            n == lcd@.len(),
            n <= m@.len(),
            i <= n,
            forall|j: int| 0 <= j < i ==> lcd@[j]@ == m@[j]@,
        decreases n - i,
    {
        if !str_eq(lcd[i].as_str(), m[i].as_str()) {
            proof {
                assert(lcd.deep_view()[i as int] == lcd@[i as int]@);
                assert(m.deep_view()[i as int] == m@[i as int]@);
                assert(lcd.deep_view() != m.deep_view().subrange(0, n as int)) by {
                    if lcd.deep_view() == m.deep_view().subrange(0, n as int) {
                        assert(m.deep_view().subrange(0, n as int)[i as int] == m.deep_view()[i as int]);
                    }
                }
            }
            return None;
        }
        i = i + 1;
    }
    let mut rel: Vec<String> = Vec::new();
    let mlen = m.len();
    let mut k: usize = n;
    while k < mlen
        invariant
            n <= m@.len(),
            mlen == m@.len(),
            n <= k <= mlen,
            rel.deep_view() =~= m.deep_view().subrange(n as int, k as int),
            rel@.len() == k - n,
        decreases mlen - k,
    {
        let ghost pre_dv: Seq<Seq<char>> = rel.deep_view();
        let ghost pre_len = rel@.len();
        rel.push(m[k].clone());
        proof {
            let dv: Seq<Seq<char>> = rel.deep_view();
            assert(dv.len() == rel@.len());
            assert forall|j: int| 0 <= j < dv.len() implies dv[j] == m.deep_view().subrange(
                n as int,
                k + 1,
            )[j] by {
                assert(dv[j] == rel@[j]@);
                if j < pre_len {
                    assert(pre_dv[j] == rel@[j]@);
                } else {
                    assert(m.deep_view()[k as int] == m@[k as int]@);
                }
            }
            assert(dv =~= m.deep_view().subrange(n as int, k + 1));
        }
        k = k + 1;
    }
    proof {
        assert(is_prefix_of(lcd.deep_view(), m.deep_view())) by {
            assert forall|j: int| 0 <= j < n implies m.deep_view().subrange(0, n as int)[j]
                == lcd.deep_view()[j] by {
                assert(lcd.deep_view()[j] == lcd@[j]@);
                assert(m.deep_view()[j] == m@[j]@);
            }
            assert(lcd.deep_view() =~= m.deep_view().subrange(0, n as int));
        }
        assert(lcd.deep_view() + rel.deep_view() =~= m.deep_view());
    }
    Some(rel)
}

/// Re-prefixing the longest common directory onto a stripped match
/// reconstructs the match: the remote target under the destination is the
/// same path that the pathspec matched.
pub proof fn lemma_lcd_strip_reconstructs(lcd: PathV, m: PathV)
    requires
        is_prefix_of(lcd, m),
    ensures
        lcd + m.subrange(lcd.len() as int, m.len() as int) == m,
{
    assert(lcd + m.subrange(lcd.len() as int, m.len() as int) =~= m);
}

} // verus!
