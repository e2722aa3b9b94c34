//! The roots a search starts from.

use vstd::prelude::*;

use crate::text::push_char;

verus! {

/// The position of the first `false`, or the length when there is none.
pub open spec fn first_missing(present: Seq<bool>) -> nat
    decreases present.len(),
{
    if present.len() == 0 || !present[0] {
        0
    } else {
        1 + first_missing(present.drop_first())
    }
}

proof fn lemma_first_missing(present: Seq<bool>)
    ensures
        first_missing(present) <= present.len(),
        forall|i: int| 0 <= i < first_missing(present) ==> #[trigger] present[i],
        first_missing(present) < present.len() ==> !present[first_missing(present) as int],
    decreases present.len(),
{
    if present.len() > 0 && present[0] {
        lemma_first_missing(present.drop_first());
        assert forall|i: int| 0 <= i < first_missing(present) implies #[trigger] present[i] by {
            if i > 0 {
                assert(present[i] == present.drop_first()[i - 1]);
            }
        }
    }
}

/// The views of a list of strings.
pub open spec fn string_views(strings: Seq<String>) -> Seq<Seq<char>> {
    strings.map_values(|s: String| s@)
}

/// Picks the search roots.
pub struct RootPathProvider;

impl RootPathProvider {
    /// The roots to search: the given paths when there are any, else the
    /// platform's default roots. `present[i]` says whether
    /// `custom_paths[i]` exists; the first one that does not is reported.
    pub fn get_search_roots(
        custom_paths: &Vec<String>,
        present: &Vec<bool>,
        default_roots: Vec<String>,
    ) -> (r: Result<Vec<String>, String>)
        requires
            present@.len() == custom_paths@.len(),
        ensures
            custom_paths@.len() > 0 && first_missing(present@) < custom_paths@.len() ==> (r
                matches Err(message) && message@ == "path does not exist: "@
                + custom_paths@[first_missing(present@) as int]@),
            custom_paths@.len() > 0 && first_missing(present@) == custom_paths@.len() ==> (r
                matches Ok(roots) && string_views(roots@) == string_views(custom_paths@)),
            custom_paths@.len() == 0 && default_roots@.len() == 0 ==> (r matches Err(message)
                && message@ == "no valid search paths found"@),
            custom_paths@.len() == 0 && default_roots@.len() > 0 ==> r == Ok::<
                Vec<String>,
                String,
            >(default_roots),
    {
        proof {
            lemma_first_missing(present@);
        }
        if custom_paths.len() > 0 {
            let mut roots: Vec<String> = Vec::new();
            for i in 0..custom_paths.len()
                invariant
                    present@.len() == custom_paths@.len(),
                    first_missing(present@) <= present@.len(),
                    forall|k: int| 0 <= k < first_missing(present@) ==> #[trigger] present@[k],
                    first_missing(present@) < present@.len() ==> !present@[first_missing(
                        present@,
                    ) as int],
                    i <= first_missing(present@),
                    roots@.len() == i,
                    forall|k: int| 0 <= k < i ==> #[trigger] roots@[k]@ == custom_paths@[k]@,
            {
                if !present[i] {
                    let mut message = String::from_str("path does not exist: ");
                    message.append(custom_paths[i].as_str());
                    return Err(message);
                }
                roots.push(custom_paths[i].clone());
            }
            assert(string_views(roots@) =~= string_views(custom_paths@));
            return Ok(roots);
        }
        if default_roots.len() == 0 {
            return Err(String::from_str("no valid search paths found"));
        }
        Ok(default_roots)
    }
}

/// The default root outside Windows: `/`.
pub fn default_roots() -> (roots: Vec<String>)
    ensures
        roots@.len() == 1,
        roots@[0]@ == "/"@,
{
    let mut roots: Vec<String> = Vec::new();
    roots.push(String::from_str("/"));
    roots
}

/// The drive roots a Windows search considers, `C:\` to `Z:\`; those that
/// exist are the default roots there.
pub fn drive_roots() -> (roots: Vec<String>)
    ensures
        roots@.len() == 24,
        forall|i: int| 0 <= i < 24 ==> #[trigger] roots@[i]@ == seq![(67 + i) as char, ':', '\\'],
{
    let mut roots: Vec<String> = Vec::new();
    let mut drive: u8 = 67;
    while drive <= 90
        invariant
            67 <= drive <= 91,
            roots@.len() == drive - 67,
            forall|i: int| 0 <= i < drive - 67 ==> #[trigger] roots@[i]@ == seq![(67 + i) as char, ':', '\\'],
        decreases 91 - drive,
    {
        let mut root = String::new();
        push_char(&mut root, drive as char);
        push_char(&mut root, ':');
        push_char(&mut root, '\\');
        assert(root@ =~= seq![(67 + (drive - 67)) as char, ':', '\\']);
        roots.push(root);
        drive += 1;
    }
    roots
}

} // verus!
