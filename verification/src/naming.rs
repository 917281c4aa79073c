//! Name validation for clients, databases, collections, and indexes.

use vstd::prelude::*;
use vstd::string::*;

use crate::error::{numbered, GrumpyError, Result};
use crate::text::{decimal, owned, str_eq};

verus! {

/// The longest accepted name, in bytes.
pub const MAX_NAME_LEN: usize = 64;

/// A character that may stand in a name.
pub open spec fn name_char(c: char) -> bool {
    ('a' <= c && c <= 'z') || ('0' <= c && c <= '9') || c == '_'
}

/// Names that may start with an underscore.
pub open spec fn reserved_name(s: Seq<char>) -> bool {
    s == "_default"@ || s == "_system"@
}

/// An accepted name: one to sixty-four of `[a-z0-9_]`, with a leading
/// underscore only in the two reserved names.
pub open spec fn valid_name(s: Seq<char>) -> bool {
    &&& 1 <= s.len() <= MAX_NAME_LEN
    &&& forall|i: int| 0 <= i < s.len() ==> name_char(#[trigger] s[i])
    &&& s[0] == '_' ==> reserved_name(s)
}

/// The text of the error for a rejected name.
pub open spec fn name_error(s: Seq<char>) -> Seq<char> {
    let bytes = vstd::utf8::encode_utf8(s).len();
    if s.len() == 0 {
        "name cannot be empty"@
    } else if bytes > MAX_NAME_LEN {
        "name too long: "@ + decimal(bytes) + " chars (max 64)"@
    } else if s[0] == '_' && !reserved_name(s) {
        "names starting with '_' are reserved"@
    } else {
        "invalid character '"@ + seq![first_bad(s)] + "': only [a-z0-9_] allowed"@
    }
}

/// The first character of `s` that may not stand in a name.
pub open spec fn first_bad(s: Seq<char>) -> char
    decreases s.len(),
{
    if s.len() == 0 {
        '_'
    } else if !name_char(s[0]) {
        s[0]
    } else {
        first_bad(s.skip(1))
    }
}

proof fn lemma_first_bad(s: Seq<char>, i: int)
    requires
        0 <= i < s.len(),
        !name_char(s[i]),
        forall|j: int| 0 <= j < i ==> name_char(#[trigger] s[j]),
    ensures
        first_bad(s) == s[i],
    decreases i,
{
    if i > 0 {
        assert(name_char(s[0]));
        lemma_first_bad(s.skip(1), i - 1);
    }
}

/// Text of more characters than bytes does not exist.
proof fn lemma_chars_at_most_bytes(s: Seq<char>)
    ensures
        s.len() <= vstd::utf8::encode_utf8(s).len(),
    decreases s.len(),
{
    if s.len() > 0 {
        lemma_chars_at_most_bytes(s.drop_first());
    }
}

/// Plain names take one byte per character.
proof fn lemma_plain_len(s: Seq<char>)
    requires
        forall|i: int| 0 <= i < s.len() ==> name_char(#[trigger] s[i]),
    ensures
        vstd::utf8::encode_utf8(s).len() == s.len(),
{
    assert(vstd::utf8::is_ascii_chars(s));
    vstd::utf8::is_ascii_chars_encode_utf8(s);
}

/// Whether a directory entry is hidden.
pub open spec fn hidden(s: Seq<char>) -> bool {
    s.len() > 0 && s[0] == '.'
}

/// Whether a directory under a server or a client may hold a client or a
/// database: hidden ones are skipped.
pub fn is_tenant_dir(name: &str) -> (r: bool)
    ensures
        r == !hidden(name@),
{
    if name.unicode_len() == 0 {
        return true;
    }
    name.get_char(0) != '.'
}

/// Whether a directory under a database may hold a collection: hidden ones and
/// those of the engine itself are skipped.
pub fn is_collection_dir(name: &str) -> (r: bool)
    ensures
        r == (!hidden(name@) && name@ != "_database"@ && name@ != "_replication"@),
{
    is_tenant_dir(name) && !str_eq(name, "_database") && !str_eq(name, "_replication")
}

/// Validates a name for use as a client, database, collection, or index
/// identifier: `[a-z0-9_]{1,64}`.
pub fn validate_name(name: &str) -> (r: Result<()>)
    ensures
        r is Ok == valid_name(name@),
        r is Err ==> r->Err_0 is InvalidName && (r->Err_0->InvalidName_0)@ == name_error(name@),
{
    proof {
        lemma_chars_at_most_bytes(name@);
    }
    if name.is_empty() {
        return Err(GrumpyError::InvalidName(owned("name cannot be empty")));
    }
    let bytes: usize = name.as_bytes().len();
    if bytes > MAX_NAME_LEN {
        proof {
            if valid_name(name@) {
                lemma_plain_len(name@);
            }
        }
        return Err(
            GrumpyError::InvalidName(numbered("name too long: ", bytes as u64, " chars (max 64)")),
        );
    }
    let first: char = name.get_char(0);
    if first == '_' && !str_eq(name, "_default") && !str_eq(name, "_system") {
        return Err(GrumpyError::InvalidName(owned("names starting with '_' are reserved")));
    }
    let n: usize = name.unicode_len();
    let mut i: usize = 0;
    while i < n
        invariant
            n == name@.len(),
            i <= n,
            0 < n,
            n <= vstd::utf8::encode_utf8(name@).len(),
            vstd::utf8::encode_utf8(name@).len() <= MAX_NAME_LEN,
            name@[0] == '_' ==> reserved_name(name@),
            forall|j: int| 0 <= j < i ==> name_char(#[trigger] name@[j]),
        decreases n - i,
    {
        let ch: char = name.get_char(i);
        if !(('a' <= ch && ch <= 'z') || ('0' <= ch && ch <= '9') || ch == '_') {
            proof {
                lemma_first_bad(name@, i as int);
            }
            let mut m: String = owned("invalid character '");
            m.append(name.substring_char(i, i + 1));
            m.append("': only [a-z0-9_] allowed");
            proof {
                assert(name@.subrange(i as int, i + 1) =~= seq![ch]);
            }
            return Err(GrumpyError::InvalidName(m));
        }
        i = i + 1;
    }
    Ok(())
}

/// A name is accepted exactly if it has one to sixty-four characters, all of
/// them lower-case letters, digits and underscores, and starts with an
/// underscore only as `_default` or `_system`.
pub proof fn law_accepted_names(s: Seq<char>)
    ensures
        valid_name(s) == (0 < s.len() <= 64 && (forall|i: int|
            0 <= i < s.len() ==> ('a' <= #[trigger] s[i] <= 'z' || '0' <= s[i] <= '9' || s[i]
                == '_')) && (s[0] == '_' ==> s == "_default"@ || s == "_system"@)),
{
    if valid_name(s) {
        assert forall|i: int| 0 <= i < s.len() implies ('a' <= #[trigger] s[i] <= 'z' || '0'
            <= s[i] <= '9' || s[i] == '_') by {
            assert(name_char(s[i]));
        }
    }
    if forall|i: int|
        0 <= i < s.len() ==> ('a' <= #[trigger] s[i] <= 'z' || '0' <= s[i] <= '9' || s[i] == '_') {
        assert forall|i: int| 0 <= i < s.len() implies name_char(#[trigger] s[i]) by {}
    }
}

/// The error names what is wrong first: nothing, too much, a reserved start, or
/// the first character that may not stand in a name.
pub proof fn law_name_errors(s: Seq<char>, i: int)
    requires
        !valid_name(s),
    ensures
        s.len() == 0 ==> name_error(s) == "name cannot be empty"@,
        s.len() > 0 && vstd::utf8::encode_utf8(s).len() > 64 ==> name_error(s) == "name too long: "@
            + decimal(vstd::utf8::encode_utf8(s).len()) + " chars (max 64)"@,
        s.len() > 0 && vstd::utf8::encode_utf8(s).len() <= 64 && s[0] == '_' && s != "_default"@ && s
            != "_system"@ ==> name_error(s) == "names starting with '_' are reserved"@,
        0 <= i < s.len() && vstd::utf8::encode_utf8(s).len() <= 64 && (s[0] == '_' ==> s
            == "_default"@ || s == "_system"@) && !name_char(s[i]) && (forall|j: int|
            0 <= j < i ==> name_char(#[trigger] s[j])) ==> name_error(s) == "invalid character '"@
            + seq![s[i]] + "': only [a-z0-9_] allowed"@,
{
    if 0 <= i < s.len() && !name_char(s[i]) && (forall|j: int|
        0 <= j < i ==> name_char(#[trigger] s[j])) {
        lemma_first_bad(s, i);
    }
}

} // verus!
