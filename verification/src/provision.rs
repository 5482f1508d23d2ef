//! First-run database provisioning decisions.
//!
//! Each logical store lives in one SQLite file inside the per-user
//! application-data directory.  On first run the file is seeded by
//! copying a bundled read-only template; later runs must find the
//! writable file and leave it untouched, so user edits survive.  This
//! module decides what to do; the shell performs the file operations it
//! decides on.

use vstd::prelude::*;

verus! {

/// The three logical stores, each provisioned into its own database
/// file.
#[derive(Clone, Copy, PartialEq, Eq, Structural, Debug)]
pub enum StoreKind {
    Songs,
    Bible,
    Multimedia,
}

impl StoreKind {
    /// The file name of this store's database.
    pub fn db_filename(&self) -> (r: &'static str)
        ensures
            *self is Songs ==> r@ == "cantos.db"@,
            *self is Bible ==> r@ == "biblias.db"@,
            *self is Multimedia ==> r@ == "multimedia.db"@,
    {
        match self {
            StoreKind::Songs => "cantos.db",
            StoreKind::Bible => "biblias.db",
            StoreKind::Multimedia => "multimedia.db",
        }
    }

    /// Whether the store's schema is managed by the application itself
    /// (created and upgraded at startup) rather than shipped fully formed
    /// in the seed file.
    pub fn is_self_managed(&self) -> (r: bool)
        ensures
            r == (*self is Multimedia),
    {
        match self {
            StoreKind::Multimedia => true,
            _ => false,
        }
    }
}

/// The writable path for a database file: the application-data directory
/// joined with the file name.
pub open spec fn joined_path(dir: Seq<char>, name: Seq<char>) -> Seq<char> {
    if dir.len() > 0 && dir.last() == '/' {
        dir + name
    } else {
        dir + seq!['/'] + name
    }
}

/// Joins the application-data directory and a database file name into
/// the writable target path.  The shell creates the directory (and its
/// parents) before use.
pub fn resolve_db_path(data_dir: &str, db_name: &str) -> (r: String)
    ensures
        r@ == joined_path(data_dir@, db_name@),
{
    let n = data_dir.unicode_len();
    let mut out = data_dir.to_owned();
    if n == 0 || !(data_dir.get_char(n - 1) == '/') {
        out.append("/");
        proof {
            reveal_strlit("/");
            assert("/"@ =~= seq!['/']);
        }
    }
    out.append(db_name);
    proof {
        if n > 0 && data_dir@.last() == '/' {
            assert(out@ =~= data_dir@ + db_name@);
        } else {
            assert(out@ =~= data_dir@ + seq!['/'] + db_name@);
        }
    }
    out
}

/// What provisioning decides to do about one database file.
#[derive(Clone, Copy, PartialEq, Eq, Structural, Debug)]
pub enum ProvisionDecision {
    /// The writable file already exists: keep it exactly as it is.
    UseExisting,
    /// First run: byte-copy the bundled seed file to the writable path.
    CopySeed,
    /// Neither the writable file nor the seed exists: fatal, the store
    /// cannot be provisioned.
    MissingSeed,
}

/// The provisioning decision: an existing writable file always wins; the
/// seed is copied only on first run; a missing seed on first run is
/// fatal.
pub open spec fn provision_decision(target_exists: bool, seed_exists: bool) -> ProvisionDecision {
    if target_exists {
        ProvisionDecision::UseExisting
    } else if seed_exists {
        ProvisionDecision::CopySeed
    } else {
        ProvisionDecision::MissingSeed
    }
}

/// Decides what to do about one database file, given whether the
/// writable target and the bundled seed exist.
pub fn plan_provision(target_exists: bool, seed_exists: bool) -> (r: ProvisionDecision)
    ensures
        r == provision_decision(target_exists, seed_exists),
{
    if target_exists {
        ProvisionDecision::UseExisting
    } else if seed_exists {
        ProvisionDecision::CopySeed
    } else {
        ProvisionDecision::MissingSeed
    }
}

/// The bytes of the writable target file after the decided action is
/// carried out: an existing target is kept, a first run copies the seed,
/// and a missing seed leaves nothing behind.
pub open spec fn apply_provision(
    target: Option<Seq<u8>>,
    seed: Option<Seq<u8>>,
    d: ProvisionDecision,
) -> Option<Seq<u8>> {
    match d {
        ProvisionDecision::UseExisting => target,
        ProvisionDecision::CopySeed => seed,
        ProvisionDecision::MissingSeed => target,
    }
}

/// The writable target after one full `ensure_database` pass over a file
/// whose current bytes are `target` while the bundled seed holds `seed`.
pub open spec fn ensure_database_spec(target: Option<Seq<u8>>, seed: Option<Seq<u8>>) -> Option<
    Seq<u8>,
> {
    apply_provision(target, seed, provision_decision(target is Some, seed is Some))
}

/// Law: `ensure_database` is idempotent.  It never overwrites an
/// existing writable database; in particular, once a first pass has
/// created the file and the user has written rows into it (`edited`), a
/// second pass keeps those bytes exactly; and after any successful pass
/// a further pass changes nothing.
pub proof fn lemma_ensure_database_idempotent(
    target: Option<Seq<u8>>,
    seed: Option<Seq<u8>>,
    edited: Seq<u8>,
)
    ensures
        target is Some ==> ensure_database_spec(target, seed) == target,
        ensure_database_spec(Some(edited), seed) == Some(edited),
        ({
            let once = ensure_database_spec(target, seed);
            once is Some ==> ensure_database_spec(once, seed) == once
        }),
{
}

} // verus!
