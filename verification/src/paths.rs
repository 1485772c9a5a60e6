//! The place of a package's generated tables.

use vstd::prelude::*;
use vstd::string::{StrSliceExecFns, StringExecFns};

verus! {

/// `-` becomes the path separator; every other character stands unchanged.
pub open spec fn dash_to_slash(c: char) -> char {
    if c == '-' {
        '/'
    } else {
        c
    }
}

/// The tables folder of a package: the package name with each `-` turned
/// into a directory separator, then `src/tables`.
pub open spec fn tables_path_seq(package: Seq<char>) -> Seq<char> {
    package.map_values(|c: char| dash_to_slash(c)) + "/src/tables"@
}

/// Turns a package name into the path of its tables folder, rendered as text
/// with `/` separators.
pub fn tables_path(package: &str) -> (r: String)
    ensures
        r@ == tables_path_seq(package@),
{
    let n = package.unicode_len();
    let mut out = String::new();
    let mut i: usize = 0;
    proof {
        assert(out@ =~= package@.take(0).map_values(|c: char| dash_to_slash(c)));
    }
    while i < n
        invariant
            i <= n,
            n == package@.len(),
            out@ == package@.take(i as int).map_values(|c: char| dash_to_slash(c)),
        decreases n - i,
    {
        let c = package.get_char(i);
        if c == '-' {
            out.append("/");
            proof {
                reveal_strlit("/");
                assert(("/")@ =~= seq![dash_to_slash(package@[i as int])]);
            }
        } else {
            let piece = package.substring_char(i, i + 1);
            proof {
                assert(piece@ =~= seq![dash_to_slash(package@[i as int])]);
            }
            out.append(piece);
        }
        proof {
            assert(package@.take(i + 1).map_values(|ch: char| dash_to_slash(ch)) =~= package@.take(
                i as int,
            ).map_values(|ch: char| dash_to_slash(ch)) + seq![
                dash_to_slash(package@[i as int]),
            ]);
        }
        i = i + 1;
    }
    proof {
        assert(package@.take(n as int) =~= package@);
    }
    out.append("/src/tables");
    out
}

} // verus!
