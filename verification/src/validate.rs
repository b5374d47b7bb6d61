//! Path normalization and classification.
//!
//! A raw path string may arrive wrapped in literal quote characters; they are
//! stripped before the path is interpreted. The existence and type checks
//! themselves are filesystem queries made by the caller, who hands their
//! outcome in as two booleans; [`classify_path`] turns that outcome into the
//! validation verdict.

use vstd::prelude::*;

use crate::tree::TreeError;

verus! {

/// `s` with every leading quote character removed.
pub open spec fn trim_leading_quotes(s: Seq<char>) -> Seq<char>
    decreases s.len(),
{
    if s.len() > 0 && s[0] == '"' {
        trim_leading_quotes(s.drop_first())
    } else {
        s
    }
}

/// `s` with every trailing quote character removed.
pub open spec fn trim_trailing_quotes(s: Seq<char>) -> Seq<char>
    decreases s.len(),
{
    if s.len() > 0 && s[s.len() - 1] == '"' {
        trim_trailing_quotes(s.drop_last())
    } else {
        s
    }
}

/// `s` with every leading and trailing quote character removed.
pub open spec fn trim_quotes(s: Seq<char>) -> Seq<char> {
    trim_trailing_quotes(trim_leading_quotes(s))
}

/// Strips the surrounding quote characters from a raw path string.
pub fn trim_quote_chars(raw: &str) -> (clean: &str)
    ensures
        clean@ == trim_quotes(raw@),
{
    let n = raw.unicode_len();
    proof {
        assert(raw@.skip(0) =~= raw@);
    }
    let mut start: usize = 0;
    while start < n && raw.get_char(start) == '"'
        invariant
            n == raw@.len(),
            start <= n,
            trim_leading_quotes(raw@) == trim_leading_quotes(raw@.skip(start as int)),
        decreases n - start,
    {
        proof {
            assert(raw@.skip(start as int).drop_first() =~= raw@.skip(start as int + 1));
        }
        start = start + 1;
    }
    proof {
        assert(trim_leading_quotes(raw@) =~= raw@.skip(start as int));
    }
    let mut end: usize = n;
    while end > start && raw.get_char(end - 1) == '"'
        invariant
            n == raw@.len(),
            start <= end <= n,
            trim_leading_quotes(raw@) == raw@.skip(start as int),
            trim_trailing_quotes(raw@.skip(start as int)) == trim_trailing_quotes(
                raw@.subrange(start as int, end as int),
            ),
        decreases end,
    {
        proof {
            assert(raw@.subrange(start as int, end as int).drop_last() =~= raw@.subrange(
                start as int,
                end as int - 1,
            ));
        }
        end = end - 1;
    }
    proof {
        assert(raw@.skip(start as int) =~= raw@.subrange(start as int, n as int));
        assert(trim_trailing_quotes(raw@.subrange(start as int, end as int)) =~= raw@.subrange(
            start as int,
            end as int,
        ));
    }
    raw.substring_char(start, end)
}

/// Decides whether a requested path names a directory.
///
/// `exists` and `is_directory` are the outcome of the caller's read-only
/// filesystem query on the (already quote-stripped) path; `path` is the raw
/// path string as supplied, kept for the error message. Success is owed
/// exactly when the path exists and is a directory.
pub fn classify_path(path: &String, exists: bool, is_directory: bool) -> (r: Result<
    (),
    TreeError,
>)
    ensures
        r is Ok <==> exists && is_directory,
        !exists ==> (r matches Err(TreeError::PathNotFound { path: p }) && p@ == path@),
        exists && !is_directory ==> (r matches Err(TreeError::NotADirectory { path: p }) && p@
            == path@),
{
    if !exists {
        Err(TreeError::PathNotFound { path: path.clone() })
    } else if !is_directory {
        Err(TreeError::NotADirectory { path: path.clone() })
    } else {
        Ok(())
    }
}

} // verus!
