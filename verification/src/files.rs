use vstd::prelude::*;

use crate::text::{chars_of, last_index_of, last_index_of_char, lemma_last_index_of, string_of};

verus! {

broadcast use vstd::string::group_string_axioms;

/// The extension of a file name as `Path::extension` reads it: the text after
/// the last `.`, where that `.` is not the name's first character; `..` has
/// none.
pub open spec fn file_extension(name: Seq<char>) -> Option<Seq<char>> {
    if name == ".."@ {
        None
    } else {
        match last_index_of(name, '.') {
            Some(p) => if p > 0 {
                Some(name.subrange(p + 1, name.len() as int))
            } else {
                None
            },
            None => None,
        }
    }
}

/// A file is read as input when its extension is `txt` and it is not the
/// output file `output.txt`.
pub open spec fn is_input_name(name: Seq<char>) -> bool {
    file_extension(name) == Some("txt"@) && name != "output.txt"@
}

/// Whether a file with this name is read as input (see `is_input_name`).
pub fn is_input_text_file(file_name: &str) -> (r: bool)
    ensures
        r == is_input_name(file_name@),
{
    let name = file_name.to_string();
    if name == "..".to_string() || name == "output.txt".to_string() {
        return false;
    }
    let c = chars_of(file_name);
    match last_index_of_char(&c, '.') {
        Some(p) => {
            if p == 0 {
                false
            } else {
                let ext = string_of(&c, p + 1, c.len());
                ext == "txt".to_string()
            }
        },
        None => false,
    }
}

/// A file is read as input exactly when its name ends in `.txt` with at
/// least one character before the dot, and it is not `output.txt`.
pub proof fn lemma_input_name(name: Seq<char>)
    ensures
        is_input_name(name) <==> name.len() >= 5 && name.subrange(name.len() - 4, name.len() as int)
            == ".txt"@ && name != "output.txt"@,
{
    reveal_strlit(".txt");
    reveal_strlit("txt");
    reveal_strlit("..");
    lemma_last_index_of(name, '.');
    let n = name.len() as int;
    if n >= 5 && name.subrange(n - 4, n) == ".txt"@ {
        assert(name[n - 4] == name.subrange(n - 4, n)[0]);
        assert forall|q: int| n - 4 < q < n implies name[q] != '.' by {
            assert(name[q] == name.subrange(n - 4, n)[q - (n - 4)]);
        }
        let p = last_index_of(name, '.')->0;
        assert(p == n - 4);
        assert(name.subrange(p + 1, n) =~= "txt"@) by {
            assert forall|q: int| 0 <= q < 3 implies name.subrange(p + 1, n)[q] == "txt"@[q] by {
                assert(name[p + 1 + q] == name.subrange(n - 4, n)[q + 1]);
            }
        }
        assert(name != ".."@);
    }
    if file_extension(name) == Some("txt"@) {
        let p = last_index_of(name, '.')->0;
        assert(name.subrange(p + 1, n).len() == 3);
        assert(name.subrange(n - 4, n) =~= ".txt"@) by {
            assert forall|q: int| 1 <= q < 4 implies name.subrange(n - 4, n)[q] == ".txt"@[q] by {
                assert(name[n - 4 + q] == name.subrange(p + 1, n)[q - 1]);
            }
        }
    }
}

} // verus!
