use vstd::prelude::*;

verus! {

/// A located `rustup` executable.
#[derive(Debug, Clone)]
pub struct Rustup {
    path: String,
}

impl Rustup {
    /// The `rustup` found at `path`.
    pub fn from_path(path: String) -> (r: Rustup)
        ensures
            r.path()@ == path@,
    {
        Rustup { path }
    }

    /// Where the executable is.
    pub closed spec fn path(&self) -> String {
        self.path
    }

    /// Where the executable is.
    pub fn executable(&self) -> (r: &String)
        ensures
            r@ == self.path()@,
    {
        &self.path
    }

    /// Whether the `rustup` installer script can be run on `platform` (the
    /// name that Node reports: `darwin`, `linux`, ...).
    pub fn installer_supported(platform: &str) -> (r: bool)
        ensures
            r == (platform@ == "darwin"@ || platform@ == "linux"@),
    {
        let p = String::from_str(platform);
        let darwin = String::from_str("darwin");
        let linux = String::from_str("linux");
        p == darwin || p == linux
    }

    /// The arguments for the installer script: no default toolchain, and
    /// no questions.
    pub fn installer_args() -> (r: Vec<String>)
        ensures
            r@.len() == 3,
            r@[0]@ == "--default-toolchain"@,
            r@[1]@ == "none"@,
            r@[2]@ == "-y"@,
    {
        let mut r: Vec<String> = Vec::new();
        r.push(String::from_str("--default-toolchain"));
        r.push(String::from_str("none"));
        r.push(String::from_str("-y"));
        r
    }
}

/// A located `cargo` executable.
#[derive(Debug, Clone)]
pub struct Cargo {
    path: String,
}

/// The command line of `cargo <subcommand> <args>`: `clippy` also asks for
/// JSON messages, so that its diagnostics can be read back.
pub open spec fn spec_cargo_args(subcommand: Seq<char>, args: Seq<Seq<char>>) -> Seq<Seq<char>> {
    seq![subcommand] + (if subcommand == "clippy"@ {
        seq!["--message-format=json"@]
    } else {
        seq![]
    }) + args
}

impl Cargo {
    /// The `cargo` found at `path`.
    pub fn from_path(path: String) -> (r: Cargo)
        ensures
            r.path()@ == path@,
    {
        Cargo { path }
    }

    /// Where the executable is.
    pub closed spec fn path(&self) -> String {
        self.path
    }

    /// Where the executable is.
    pub fn executable(&self) -> (r: &String)
        ensures
            r@ == self.path()@,
    {
        &self.path
    }

    /// The arguments to run `cargo` with, and whether its output is JSON
    /// messages to be read line by line.
    pub fn command_args(subcommand: &str, args: &Vec<String>) -> (r: (Vec<String>, bool))
        ensures
            r.0@.map_values(|a: String| a@) == spec_cargo_args(
                subcommand@,
                args@.map_values(|a: String| a@),
            ),
            r.1 == (subcommand@ == "clippy"@),
    {
        let sub = String::from_str(subcommand);
        let clippy = String::from_str("clippy");
        let process_json = sub == clippy;
        let mut out: Vec<String> = Vec::new();
        out.push(sub);
        if process_json {
            out.push(String::from_str("--message-format=json"));
        }
        let ghost head = out@.map_values(|a: String| a@);
        assert(head =~= seq![subcommand@] + (if subcommand@ == "clippy"@ {
            seq!["--message-format=json"@]
        } else {
            seq![]
        }));
        let mut i: usize = 0;
        while i < args.len()
            invariant
                i <= args@.len(),
                out@.map_values(|a: String| a@) == head + args@.map_values(|a: String| a@).take(
                    i as int,
                ),
            decreases args@.len() - i,
        {
            let ghost before = out@;
            let a = args[i].clone();
            assert(a@ == args@[i as int]@);
            out.push(a);
            assert(out@.map_values(|a: String| a@) =~= before.map_values(|a: String| a@).push(
                args@[i as int]@,
            ));
            assert(args@.map_values(|a: String| a@).take(i + 1) =~= args@.map_values(
                |a: String| a@,
            ).take(i as int).push(args@[i as int]@));
            assert(out@.map_values(|a: String| a@) =~= head + args@.map_values(|a: String| a@).take(
                i + 1,
            ));
            i = i + 1;
        }
        assert(args@.map_values(|a: String| a@).take(i as int) =~= args@.map_values(
            |a: String| a@,
        ));
        (out, process_json)
    }
}

} // verus!
