//! Encoding of file paths into digest-table keys.
//!
//! Keys replace every path separator with a null byte, so that the key space
//! keeps safe lexical ordering and prefix semantics. On paths free of null
//! bytes the encoding is injective.

use vstd::prelude::*;

verus! {

/// What the key of a path looks like: the path's characters with every `/`
/// replaced by a null character.
pub open spec fn db_key(path: Seq<char>) -> Seq<char> {
    path.map(|i: int, c: char| if c == '/' { '\0' } else { c })
}

/// Relies on `String::push`: appends the given character to the end of the string.
#[verifier::external_body]
fn push_char(s: &mut String, c: char)
    ensures
        final(s)@ == old(s)@.push(c),
{
    s.push(c)
}

/// The digest-table key for a file path: the path with every separator
/// replaced by a null byte.
pub fn db_key_for_path(path: &str) -> (r: String)
    ensures
        r@ == db_key(path@),
{
    let n = path.unicode_len();
    let mut out = String::new();
    let mut i: usize = 0;
    while i < n
        invariant
            n == path@.len(),
            i <= n,
            out@ == db_key(path@.take(i as int)),
        decreases n - i,
    {
        let c = path.get_char(i);
        if c == '/' {
            push_char(&mut out, '\0');
        } else {
            push_char(&mut out, c);
        }
        i = i + 1;
        proof {
            assert(out@ =~= db_key(path@.take(i as int)));
        }
    }
    proof {
        assert(path@.take(n as int) =~= path@);
    }
    out
}

/// On paths free of null characters the key encoding is injective: two
/// distinct such paths get distinct keys.
pub proof fn lemma_db_key_injective(a: Seq<char>, b: Seq<char>)
    requires
        !a.contains('\0'),
        !b.contains('\0'),
        db_key(a) == db_key(b),
    ensures
        a == b,
{
    assert(a.len() == b.len()) by {
        assert(db_key(a).len() == a.len());
        assert(db_key(b).len() == b.len());
    }
    assert forall|i: int| 0 <= i < a.len() implies a[i] == b[i] by {
        assert(db_key(a)[i] == db_key(b)[i]);
        assert(db_key(a)[i] == (if a[i] == '/' { '\0' } else { a[i] }));
        assert(db_key(b)[i] == (if b[i] == '/' { '\0' } else { b[i] }));
        if a[i] == '/' && b[i] != '/' {
            assert(b[i] == '\0');
            assert(b.contains('\0'));
        }
        if b[i] == '/' && a[i] != '/' {
            assert(a[i] == '\0');
            assert(a.contains('\0'));
        }
    }
    assert(a =~= b);
}

} // verus!
