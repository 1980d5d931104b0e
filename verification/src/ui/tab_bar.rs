//! Label texts for the tab bar and the path bar, with the path-string
//! helpers they are built from.

use vstd::prelude::*;

verus! {

use vstd::string::StringExecFns;

/// The final path segment: everything after the last `/`, or the whole
/// string when it holds no `/`.
pub open spec fn file_name_of(p: Seq<char>) -> Seq<char> {
    match p.index_of_last('/') {
        Option::Some(i) => p.subrange(i + 1, p.len() as int),
        Option::None => p,
    }
}

/// A file name without its extension: everything before the last `.`,
/// except that a leading `.` never counts as an extension separator.
pub open spec fn stem_of(f: Seq<char>) -> Seq<char> {
    match f.index_of_last('.') {
        Option::Some(i) => if i > 0 {
            f.subrange(0, i)
        } else {
            f
        },
        Option::None => f,
    }
}

/// Index of the last occurrence of `c` in `s`, if any.
pub fn last_char_index(s: &str, c: char) -> (r: Option<usize>)
    ensures
        s@.index_of_last(c) == (match r {
            Option::Some(i) => Option::Some(i as int),
            Option::None => Option::<int>::None,
        }),
        r matches Option::Some(i) ==> i < s@.len(),
{
    let n = s.unicode_len();
    let mut i: usize = n;
    while i > 0
        invariant
            n == s@.len(),
            i <= n,
            forall|k: int| i <= k < n ==> s@[k] != c,
        decreases i,
    {
        if s.get_char(i - 1) == c {
            proof {
                assert(s@.contains(c));
                s@.index_of_last_ensures(c);
                let w = s@.index_of_last(c)->0;
                if w != i - 1 {
                    assert(s@[w] == c);
                    assert(s@[i - 1] == c);
                }
            }
            return Option::Some(i - 1);
        }
        i = i - 1;
    }
    proof {
        if s@.contains(c) {
            let w = choose|k: int| 0 <= k < s@.len() && s@[k] == c;
            assert(s@[w] != c);
        }
        s@.index_of_last_ensures(c);
    }
    Option::None
}

/// The model of [`tab_label`]: the path's final segment (or `Untitled` for
/// no path or an empty segment), prefixed with a bullet when dirty.
pub open spec fn tab_label_model(url: Option<Seq<char>>, is_dirty: bool) -> Seq<char> {
    let name = match url {
        Option::Some(p) => if file_name_of(p).len() == 0 {
            "Untitled"@
        } else {
            file_name_of(p)
        },
        Option::None => "Untitled"@,
    };
    if is_dirty {
        "• "@ + name
    } else {
        name
    }
}

/// Label text for a tab button: the document's file name, `Untitled` when it
/// has none, prefixed with a bullet marker when there are unsaved changes.
pub fn tab_label(url: Option<&str>, is_dirty: bool) -> (r: String)
    ensures
        r@ == tab_label_model(
            match url {
                Option::Some(p) => Option::Some(p@),
                Option::None => Option::<Seq<char>>::None,
            },
            is_dirty,
        ),
{
    let name: String = match url {
        Option::Some(p) => {
            let n = p.unicode_len();
            let tail: &str = match last_char_index(p, '/') {
                Option::Some(i) => p.substring_char(i + 1, n),
                Option::None => p,
            };
            if tail.unicode_len() == 0 {
                String::from_str("Untitled")
            } else {
                String::from_str(tail)
            }
        },
        Option::None => String::from_str("Untitled"),
    };
    if is_dirty {
        let mut out = String::new();
        out.append("• ");
        out.append(name.as_str());
        proof {
            assert(Seq::<char>::empty() + "• "@ =~= "• "@);
        }
        out
    } else {
        name
    }
}

/// The model of [`path_label`]: the full path, or a placeholder for an
/// unsaved document.
pub open spec fn path_label_model(url: Option<Seq<char>>) -> Seq<char> {
    match url {
        Option::Some(p) => p,
        Option::None => "Untitled — not saved"@,
    }
}

/// Full path string for the path bar.
pub fn path_label(url: Option<&str>) -> (r: String)
    ensures
        r@ == path_label_model(
            match url {
                Option::Some(p) => Option::Some(p@),
                Option::None => Option::<Seq<char>>::None,
            },
        ),
{
    match url {
        Option::Some(p) => String::from_str(p),
        Option::None => String::from_str("Untitled — not saved"),
    }
}

} // verus!
