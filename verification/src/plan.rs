use vstd::prelude::*;

use crate::error::Error;
use crate::paths::basename;
use crate::paths::final_component;
use crate::paths::has_basename;
use crate::paths::join_path;
use crate::paths::joined;
use crate::paths::lemma_final_component_no_sep;
use crate::paths::lemma_joined_basename;

verus! {

/// The planned destination for one resolved source path: inside an existing
/// destination directory the source keeps its basename; any other
/// destination is the literal target path itself.
pub open spec fn planned_destination(source: Seq<char>, dest: Seq<char>, dest_is_dir: bool) -> Seq<
    char,
> {
    if dest_is_dir {
        joined(dest, final_component(source))
    } else {
        dest
    }
}

/// Plan the copy before anything is written: reject an ambiguous
/// destination, otherwise compute the destination path of every resolved
/// source, in order.
///
/// The plan is rejected with the ambiguous-destination error exactly when
/// more than one source resolved and the destination is not an existing
/// directory: later copies onto one literal path would overwrite earlier
/// ones. When the destination is a directory, every planned destination
/// keeps the basename of its source.
pub fn plan_copy(sources: &Vec<String>, dest: &String, dest_is_dir: bool) -> (r: Result<
    Vec<String>,
    Error,
>)
    requires
        dest_is_dir ==> forall|i: int|
            0 <= i < sources@.len() ==> has_basename(#[trigger] sources@[i]@),
    ensures
        r is Err <==> sources@.len() > 1 && !dest_is_dir,
        r is Err ==> r->Err_0 is Data,
        r is Ok ==> r->Ok_0@.len() == sources@.len(),
        r is Ok ==> forall|i: int|
            0 <= i < sources@.len() ==> (#[trigger] r->Ok_0@[i]@) == planned_destination(
                sources@[i]@,
                dest@,
                dest_is_dir,
            ),
        r is Ok && dest_is_dir ==> forall|i: int|
            0 <= i < sources@.len() ==> final_component(#[trigger] r->Ok_0@[i]@)
                == final_component(sources@[i]@),
{
    if sources.len() > 1 && !dest_is_dir {
        return Err(Error::Data);
    }
    let mut dests: Vec<String> = Vec::new();
    let mut i: usize = 0;
    while i < sources.len()
        invariant
            0 <= i <= sources@.len(),
            dests@.len() == i,
            dest_is_dir ==> forall|k: int|
                0 <= k < sources@.len() ==> has_basename(#[trigger] sources@[k]@),
            forall|k: int|
                0 <= k < i ==> (#[trigger] dests@[k]@) == planned_destination(
                    sources@[k]@,
                    dest@,
                    dest_is_dir,
                ),
            dest_is_dir ==> forall|k: int|
                0 <= k < i ==> final_component(#[trigger] dests@[k]@) == final_component(
                    sources@[k]@,
                ),
        decreases sources@.len() - i,
    {
        if dest_is_dir {
            let name = match basename(&sources[i]) {
                Some(n) => n,
                None => unreached(),
            };
            proof {
                lemma_final_component_no_sep(sources@[i as int]@);
                lemma_joined_basename(dest@, final_component(sources@[i as int]@));
            }
            let d = join_path(dest, &name);
            dests.push(d);
        } else {
            dests.push(dest.clone());
        }
        i += 1;
    }
    Ok(dests)
}

} // verus!
