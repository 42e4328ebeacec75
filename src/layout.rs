use vstd::prelude::*;
use vstd::string::*;
use crate::assets::{subdirectory, ImageType};
use crate::codec::{encode_catalog, encode_games};
use crate::game::GameRecord;
use crate::text::{joined, join_path};

verus! {

/// Which parts of the managed layout already exist on disk.
#[derive(Clone, Copy, Debug, PartialEq, Eq, Structural)]
pub struct Presence {
    pub root: bool,
    pub icons: bool,
    pub backgrounds: bool,
    pub catalog: bool,
}

/// One file-system action of the bootstrap.
pub enum SetupStep {
    CreateDirectory(String),
    WriteFile(String, Vec<u8>),
}

/// Model of a `SetupStep`.
pub enum StepRecord {
    Directory(Seq<char>),
    File(Seq<char>, Seq<u8>),
}

impl View for SetupStep {
    type V = StepRecord;

    open spec fn view(&self) -> StepRecord {
        match self {
            SetupStep::CreateDirectory(p) => StepRecord::Directory(p@),
            SetupStep::WriteFile(p, b) => StepRecord::File(p@, b@),
        }
    }
}

pub open spec fn catalog_file_name() -> Seq<char> {
    seq!['c', 'a', 't', 'a', 'l', 'o', 'g', '.', 'd', 'b']
}

/// Path of the catalog file under the managed root.
pub open spec fn catalog_location(root: Seq<char>) -> Seq<char> {
    joined(root, catalog_file_name())
}

pub open spec fn step_if(missing: bool, s: StepRecord) -> Seq<StepRecord> {
    if missing { seq![s] } else { seq![] }
}

/// The directories of the layout under `root` that are missing, in the
/// order they must be created: the root, then the two asset directories.
pub open spec fn directory_plan(root: Seq<char>, p: Presence) -> Seq<StepRecord> {
    step_if(!p.root, StepRecord::Directory(root))
        + step_if(!p.icons, StepRecord::Directory(joined(root, subdirectory(ImageType::Icon))))
        + step_if(!p.backgrounds, StepRecord::Directory(joined(root, subdirectory(ImageType::Background))))
}

/// The actions that bring the layout under `root` into existence, in order:
/// the missing directories, then an empty catalog file if it is absent.
pub open spec fn bootstrap_plan(root: Seq<char>, p: Presence) -> Seq<StepRecord> {
    directory_plan(root, p)
        + step_if(!p.catalog, StepRecord::File(catalog_location(root), encode_catalog(Seq::<GameRecord>::empty())))
}

/// What exists once `steps` have been carried out successfully.
pub open spec fn presence_after(root: Seq<char>, p: Presence, steps: Seq<StepRecord>) -> Presence {
    Presence {
        root: p.root || steps.contains(StepRecord::Directory(root)),
        icons: p.icons || steps.contains(StepRecord::Directory(joined(root, subdirectory(ImageType::Icon)))),
        backgrounds: p.backgrounds || steps.contains(
            StepRecord::Directory(joined(root, subdirectory(ImageType::Background))),
        ),
        catalog: p.catalog || exists|b: Seq<u8>| steps.contains(StepRecord::File(catalog_location(root), b)),
    }
}

/// Path of the catalog file under the managed root.
pub fn catalog_path(root: &str) -> (r: String)
    ensures
        r@ == catalog_location(root@),
{
    proof { reveal_strlit("catalog.db"); }
    join_path(root, "catalog.db")
}

/// The directories to create under `root`, given what exists; the catalog
/// file is left alone.
pub fn directory_steps(root: &str, present: Presence) -> (r: Vec<SetupStep>)
    ensures
        r@.map_values(|s: SetupStep| s@) == directory_plan(root@, present),
{
    let mut steps: Vec<SetupStep> = Vec::new();
    if !present.root {
        steps.push(SetupStep::CreateDirectory(String::from_str(root)));
    }
    if !present.icons {
        steps.push(SetupStep::CreateDirectory(join_path(root, ImageType::Icon.directory_name())));
    }
    if !present.backgrounds {
        steps.push(SetupStep::CreateDirectory(join_path(root, ImageType::Background.directory_name())));
    }
    assert(steps@.map_values(|s: SetupStep| s@) =~= directory_plan(root@, present));
    steps
}

/// The actions that bootstrap the layout under `root`, given what exists.
pub fn bootstrap_steps(root: &str, present: Presence) -> (r: Vec<SetupStep>)
    ensures
        r@.map_values(|s: SetupStep| s@) == bootstrap_plan(root@, present),
{
    let mut steps = directory_steps(root, present);
    if !present.catalog {
        let empty: Vec<crate::game::Game> = Vec::new();
        let bytes = encode_games(&empty);
        proof {
            assert(crate::game::records(empty@) =~= Seq::<GameRecord>::empty());
        }
        steps.push(SetupStep::WriteFile(catalog_path(root), bytes));
    }
    assert(steps@.map_values(|s: SetupStep| s@) =~= bootstrap_plan(root@, present));
    steps
}

/// Bootstrapping is idempotent: once the planned actions have been carried
/// out, a second bootstrap plans nothing and changes nothing.
pub proof fn lemma_bootstrap_idempotent(root: Seq<char>, p: Presence)
    ensures
        bootstrap_plan(root, presence_after(root, p, bootstrap_plan(root, p))) == Seq::<StepRecord>::empty(),
        presence_after(
            root,
            presence_after(root, p, bootstrap_plan(root, p)),
            bootstrap_plan(root, presence_after(root, p, bootstrap_plan(root, p))),
        ) == presence_after(root, p, bootstrap_plan(root, p)),
{
    let plan = bootstrap_plan(root, p);
    let a = step_if(!p.root, StepRecord::Directory(root));
    let b = step_if(!p.icons, StepRecord::Directory(joined(root, subdirectory(ImageType::Icon))));
    let c = step_if(!p.backgrounds, StepRecord::Directory(joined(root, subdirectory(ImageType::Background))));
    let d = step_if(!p.catalog, StepRecord::File(catalog_location(root), encode_catalog(Seq::<GameRecord>::empty())));
    assert(plan =~= a + b + c + d);
    if !p.root {
        assert(plan[0] == StepRecord::Directory(root));
    }
    if !p.icons {
        assert(plan[a.len() as int] == StepRecord::Directory(joined(root, subdirectory(ImageType::Icon))));
    }
    if !p.backgrounds {
        assert(plan[(a.len() + b.len()) as int] == StepRecord::Directory(joined(root, subdirectory(ImageType::Background))));
    }
    if !p.catalog {
        let e = encode_catalog(Seq::<GameRecord>::empty());
        assert(plan[(a.len() + b.len() + c.len()) as int] == StepRecord::File(catalog_location(root), e));
        assert(plan.contains(StepRecord::File(catalog_location(root), e)));
    }
    let q = presence_after(root, p, plan);
    assert(bootstrap_plan(root, q) =~= Seq::<StepRecord>::empty());
    assert(presence_after(root, q, bootstrap_plan(root, q)) == q);
}

/// Creating the directories is idempotent: once the planned directories
/// exist, a second run plans nothing and changes nothing.
pub proof fn lemma_directories_idempotent(root: Seq<char>, p: Presence)
    ensures
        directory_plan(root, presence_after(root, p, directory_plan(root, p))) == Seq::<StepRecord>::empty(),
        presence_after(
            root,
            presence_after(root, p, directory_plan(root, p)),
            directory_plan(root, presence_after(root, p, directory_plan(root, p))),
        ) == presence_after(root, p, directory_plan(root, p)),
{
    let plan = directory_plan(root, p);
    let a = step_if(!p.root, StepRecord::Directory(root));
    let b = step_if(!p.icons, StepRecord::Directory(joined(root, subdirectory(ImageType::Icon))));
    let c = step_if(!p.backgrounds, StepRecord::Directory(joined(root, subdirectory(ImageType::Background))));
    assert(plan =~= a + b + c);
    if !p.root {
        assert(plan[0] == StepRecord::Directory(root));
    }
    if !p.icons {
        assert(plan[a.len() as int] == StepRecord::Directory(joined(root, subdirectory(ImageType::Icon))));
    }
    if !p.backgrounds {
        assert(plan[(a.len() + b.len()) as int] == StepRecord::Directory(joined(root, subdirectory(ImageType::Background))));
    }
    let q = presence_after(root, p, plan);
    assert(directory_plan(root, q) =~= Seq::<StepRecord>::empty());
    assert(presence_after(root, q, directory_plan(root, q)) =~~= q) by {
        assert(forall|bs: Seq<u8>| !Seq::<StepRecord>::empty().contains(StepRecord::File(catalog_location(root), bs)));
    }
}

} // verus!
