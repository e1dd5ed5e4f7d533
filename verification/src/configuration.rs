//! Runtime configuration values the verified core interprets itself:
//! the deployment environment name, matched without regard to letter
//! case.

use vstd::prelude::*;

verus! {

/// The code of `c` with an ASCII capital folded to its small letter.
pub open spec fn char_lower_code(c: char) -> int {
    if 65 <= c as int <= 90 {
        c as int + 32
    } else {
        c as int
    }
}

/// `a` equals the (already lower-case) `b` when letter case is ignored.
pub open spec fn lower_eq(a: Seq<char>, b: Seq<char>) -> bool {
    a.len() == b.len() && forall|i: int|
        0 <= i < a.len() ==> char_lower_code(#[trigger] a[i]) == b[i] as int
}

/// Whether `s`, lower-cased, equals the lower-case ASCII text `t`.
fn matches_lower(s: &str, t: &str) -> (r: bool)
    requires
        vstd::utf8::is_ascii_chars(t@),
    ensures
        r == lower_eq(s@, t@),
{
    proof {
        broadcast use vstd::string::is_ascii_spec_bytes;

    }
    if !s.is_ascii() {
        proof {
            if lower_eq(s@, t@) {
                assert forall|i: int| 0 <= i < s@.len() implies '\0' <= #[trigger] s@[i]
                    <= '\u{7f}' by {
                    assert(char_lower_code(s@[i]) == t@[i] as int);
                    assert('\0' <= t@[i] <= '\u{7f}');
                }
                assert(vstd::utf8::is_ascii_chars(s@));
            }
        }
        return false;
    }
    let a = s.as_bytes();
    let b = t.as_bytes();
    let ghost sv = s@;
    let ghost tv = t@;
    proof {
        assert(vstd::string::is_ascii(t));
        assert(a@ =~= Seq::new(sv.len(), |i: int| sv[i] as u8));
        assert(b@ =~= Seq::new(tv.len(), |i: int| tv[i] as u8));
    }
    if a.len() != b.len() {
        return false;
    }
    let n = a.len();
    for i in 0..n
        invariant
            sv == s@,
            tv == t@,
            vstd::utf8::is_ascii_chars(sv),
            vstd::utf8::is_ascii_chars(tv),
            a@ =~= Seq::new(sv.len(), |k: int| sv[k] as u8),
            b@ =~= Seq::new(tv.len(), |k: int| tv[k] as u8),
            n == a@.len(),
            n == b@.len(),
            forall|k: int| 0 <= k < i ==> char_lower_code(#[trigger] sv[k]) == tv[k] as int,
    {
        proof {
            assert(a@[i as int] == sv[i as int] as u8);
            assert(b@[i as int] == tv[i as int] as u8);
            assert('\0' <= sv[i as int] <= '\u{7f}');
            assert('\0' <= tv[i as int] <= '\u{7f}');
        }
        let c = a[i];
        let folded = if 65 <= c && c <= 90 {
            c + 32
        } else {
            c
        };
        if folded != b[i] {
            proof {
                assert(char_lower_code(sv[i as int]) != tv[i as int] as int);
            }
            return false;
        }
    }
    true
}

/// Which deployment flavour the service runs as.
#[derive(Debug)]
pub enum Environment {
    Local,
    Production,
}

impl Environment {
    /// The canonical name of the environment.
    pub fn as_str(&self) -> (r: &'static str)
        ensures
            *self is Local ==> r@ == "local"@,
            *self is Production ==> r@ == "production"@,
    {
        match self {
            Environment::Local => "local",
            Environment::Production => "production",
        }
    }

    /// Read an environment from its name, without regard to letter case;
    /// any other name is rejected with a message naming the two accepted
    /// values.
    pub fn try_from(value: String) -> (r: Result<Environment, String>)
        ensures
            lower_eq(value@, "local"@) ==> (r matches Ok(e) && e is Local),
            !lower_eq(value@, "local"@) && lower_eq(value@, "production"@) ==> (r matches Ok(
                e,
            ) && e is Production),
            !lower_eq(value@, "local"@) && !lower_eq(value@, "production"@) ==> (r matches Err(
                m,
            ) && m@ == "Unsupported environment type: "@ + value@
                + ". Use `local` or `production`"@),
    {
        proof {
            reveal_strlit("local");
            reveal_strlit("production");
            assert(vstd::utf8::is_ascii_chars("local"@));
            assert(vstd::utf8::is_ascii_chars("production"@));
        }
        if matches_lower(value.as_str(), "local") {
            Ok(Environment::Local)
        } else if matches_lower(value.as_str(), "production") {
            Ok(Environment::Production)
        } else {
            let mut m = String::from_str("Unsupported environment type: ");
            m.append(value.as_str());
            m.append(". Use `local` or `production`");
            Err(m)
        }
    }
}

} // verus!
