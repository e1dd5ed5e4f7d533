//! Reading a user's identity out of a directory entry: the mail
//! address, and the common names of the groups the entry is a member
//! of, extracted from raw group distinguished names.
//!
//! The directory protocol itself is I/O and stays with the embedding
//! program, which hands the entry's attributes over as plain values.

use vstd::prelude::*;
use vstd::string::StrSliceExecFns;

verus! {

/// What the quota rules need to know of a directory user: the entry's
/// distinguished name, mail address, and group names.
#[derive(Debug)]
pub struct AdUserInfo {
    pub dn: String,
    pub email: String,
    pub groups: Vec<String>,
}

/// One attribute of a directory entry: a name and its values.
#[derive(Debug)]
pub struct LdapAttr {
    pub name: String,
    pub values: Vec<String>,
}

/// The end of the comma-separated segment of `s` starting at `i`: the
/// first comma at or after `i`, or the end of the text.
pub open spec fn seg_end(s: Seq<char>, i: int) -> int {
    if exists|k: int|
        i <= k < s.len() && #[trigger] s[k] == ',' && (forall|m: int|
            i <= m < k ==> #[trigger] s[m] != ',') {
        choose|k: int|
            i <= k < s.len() && #[trigger] s[k] == ',' && (forall|m: int|
                i <= m < k ==> #[trigger] s[m] != ',')
    } else {
        s.len() as int
    }
}

/// The common-name value in `s` from position `i` on: the text after
/// `CN=` in the first comma-separated segment starting with it.
pub open spec fn cn_from(s: Seq<char>, i: int) -> Option<Seq<char>>
    decreases s.len() - i,
    when 0 <= i <= s.len()
{
    let e = seg_end(s, i);
    if i + 3 <= e && s[i] == 'C' && s[i + 1] == 'N' && s[i + 2] == '=' {
        Some(s.subrange(i + 3, e))
    } else if e >= s.len() {
        None
    } else {
        cn_from(s, e + 1)
    }
}

/// The common name carried by the distinguished name `s`, if any.
pub open spec fn cn_of(s: Seq<char>) -> Option<Seq<char>> {
    cn_from(s, 0)
}

/// Extract the common name of a raw group distinguished name: the text
/// after `CN=` in its first segment starting with it.
pub fn parse_group_cn(s: &str) -> (r: Option<String>)
    ensures
        cn_of(s@) matches Some(c) ==> (r matches Some(v) && v@ == c),
        cn_of(s@) is None ==> r is None,
{
    let n = s.unicode_len();
    let mut i: usize = 0;
    loop
        invariant
            0 <= i <= n,
            n == s@.len(),
            cn_of(s@) == cn_from(s@, i as int),
        decreases n - i,
    {
        let mut e: usize = i;
        while e < n && s.get_char(e) != ','
            invariant
                i <= e <= n,
                n == s@.len(),
                forall|m: int| i <= m < e ==> #[trigger] s@[m] != ',',
            decreases n - e,
        {
            e += 1;
        }
        proof {
            if e < n {
                assert(s@[e as int] == ',');
                let k = seg_end(s@, i as int);
                assert(seg_end(s@, i as int) == e as int) by {
                    assert(exists|k2: int|
                        i <= k2 < s@.len() && #[trigger] s@[k2] == ',' && (forall|m: int|
                            i <= m < k2 ==> #[trigger] s@[m] != ',')) by {
                        assert(i <= e < s@.len() && #[trigger] s@[e as int] == ',' && (forall|
                            m: int,
                        | i <= m < e ==> #[trigger] s@[m] != ','));
                    }
                    if k < e {
                        assert(s@[k] != ',');
                    }
                    if e < k {
                        assert(s@[e as int] != ',');
                    }
                }
            } else {
                assert(seg_end(s@, i as int) == s@.len()) by {
                    if exists|k2: int|
                        i <= k2 < s@.len() && #[trigger] s@[k2] == ',' && (forall|m: int|
                            i <= m < k2 ==> #[trigger] s@[m] != ',') {
                        let k2 = choose|k2: int|
                            i <= k2 < s@.len() && #[trigger] s@[k2] == ',' && (forall|m: int|
                                i <= m < k2 ==> #[trigger] s@[m] != ',');
                        assert(s@[k2] != ',');
                    }
                }
            }
        }
        if e - i >= 3 && s.get_char(i) == 'C' && s.get_char(i + 1) == 'N' && s.get_char(i + 2)
            == '=' {
            let sub = s.substring_char(i + 3, e);
            return Some(sub.to_owned());
        }
        if e >= n {
            return None;
        }
        i = e + 1;
    }
}

/// The group names extractable from raw group distinguished names, in
/// order.
pub open spec fn group_cns(gs: Seq<Seq<char>>) -> Seq<Seq<char>>
    decreases gs.len(),
{
    if gs.len() == 0 {
        Seq::empty()
    } else {
        let rest = group_cns(gs.drop_last());
        match cn_of(gs.last()) {
            Some(c) => rest.push(c),
            None => rest,
        }
    }
}

/// Extract the common name of every raw group distinguished name that
/// carries one, in order.
pub fn extract_group_names(groups: &Vec<String>) -> (r: Vec<String>)
    ensures
        r.deep_view() == group_cns(groups.deep_view()),
{
    let ghost gv = groups.deep_view();
    let mut r: Vec<String> = Vec::new();
    let n = groups.len();
    for i in 0..n
        invariant
            n == groups.len(),
            gv == groups.deep_view(),
            gv.len() == n,
            r.deep_view() == group_cns(gv.take(i as int)),
    {
        proof {
            assert(gv.take(i as int + 1).drop_last() =~= gv.take(i as int));
            assert(gv.take(i as int + 1).last() == gv[i as int]);
            assert(gv[i as int] == groups@[i as int]@);
        }
        let ghost old_r = r.deep_view();
        match parse_group_cn(groups[i].as_str()) {
            Some(v) => {
                r.push(v);
                proof {
                    assert(r.deep_view() =~= old_r.push(r@[r@.len() - 1]@));
                    assert(r.deep_view() =~= group_cns(gv.take(i as int + 1)));
                }
            },
            None => {
                proof {
                    assert(r.deep_view() =~= group_cns(gv.take(i as int + 1)));
                }
            },
        }
    }
    proof {
        assert(gv.take(n as int) =~= gv);
    }
    r
}

/// The first attribute carrying `name`, in entry order.
pub open spec fn attr_named(attrs: Seq<LdapAttr>, name: Seq<char>) -> Option<LdapAttr>
    decreases attrs.len(),
{
    if attrs.len() == 0 {
        None
    } else if attrs.first().name@ == name {
        Some(attrs.first())
    } else {
        attr_named(attrs.drop_first(), name)
    }
}

proof fn lemma_attr_named_found(attrs: Seq<LdapAttr>, i: int)
    requires
        0 <= i < attrs.len(),
        forall|k: int| 0 <= k < i ==> (#[trigger] attrs[k]).name@ != attrs[i].name@,
    ensures
        attr_named(attrs, attrs[i].name@) == Some(attrs[i]),
    decreases i,
{
    if i > 0 {
        assert(attrs.drop_first()[i - 1] == attrs[i]);
        lemma_attr_named_found(attrs.drop_first(), i - 1);
    }
}

proof fn lemma_attr_named_none(attrs: Seq<LdapAttr>, name: Seq<char>)
    requires
        forall|k: int| 0 <= k < attrs.len() ==> (#[trigger] attrs[k]).name@ != name,
    ensures
        attr_named(attrs, name) is None,
    decreases attrs.len(),
{
    if attrs.len() > 0 {
        lemma_attr_named_none(attrs.drop_first(), name);
    }
}

/// The index of the first attribute carrying `name`.
fn find_attr(attrs: &Vec<LdapAttr>, name: &str) -> (r: Option<usize>)
    ensures
        match r {
            Some(j) => j < attrs@.len() && attr_named(attrs@, name@) == Some(attrs@[j as int]),
            None => attr_named(attrs@, name@) is None,
        },
{
    let wanted = name.to_owned();
    let n = attrs.len();
    for i in 0..n
        invariant
            n == attrs.len(),
            wanted@ == name@,
            forall|k: int| 0 <= k < i ==> (#[trigger] attrs@[k]).name@ != name@,
    {
        if attrs[i].name == wanted {
            proof {
                lemma_attr_named_found(attrs@, i as int);
            }
            return Some(i);
        }
    }
    proof {
        lemma_attr_named_none(attrs@, name@);
    }
    None
}

impl AdUserInfo {
    /// Read a user's identity from a directory entry: the first `mail`
    /// value and the group names of the `memberOf` values. An entry
    /// without a mail value or without a `memberOf` attribute cannot be
    /// parsed.
    pub fn try_from(dn: String, attrs: &Vec<LdapAttr>) -> (r: Result<AdUserInfo, String>)
        ensures
            ({
                let mail = attr_named(attrs@, "mail"@);
                let member = attr_named(attrs@, "memberOf"@);
                let ok = mail matches Some(a) && a.values@.len() > 0 && member is Some;
                &&& ok ==> (r matches Ok(info) && info.dn == dn && info.email
                    == mail->0.values@[0] && info.groups.deep_view() == group_cns(
                    member->0.values.deep_view(),
                ))
                &&& !ok ==> (r matches Err(m) && m@ == "Unable to parse SearchEntry"@)
            }),
    {
        let mail_idx = find_attr(attrs, "mail");
        let member_idx = find_attr(attrs, "memberOf");
        match (mail_idx, member_idx) {
            (Some(mi), Some(gi)) => {
                if attrs[mi].values.len() == 0 {
                    return Err(String::from_str("Unable to parse SearchEntry"));
                }
                let email = attrs[mi].values[0].clone();
                let groups = extract_group_names(&attrs[gi].values);
                Ok(AdUserInfo { dn, email, groups })
            },
            _ => Err(String::from_str("Unable to parse SearchEntry")),
        }
    }
}

} // verus!
