//! The decompiler: how it is called and how its answer is read.

use vstd::prelude::*;
use crate::text::{chars_of, string_of, trim, trim_range};

verus! {

/// The decompiler, known by the archive that holds it.
#[derive(Debug, Clone)]
pub struct Cfr {
    cfr_jar: String,
}

/// What a run of the Java launcher gave back.
#[derive(Debug, Clone)]
pub struct JavaOutput {
    pub success: bool,
    pub stdout: String,
    pub stderr: String,
}

/// The decompiler ended with an error; `message` says which.
#[derive(Debug, Clone)]
pub struct CfrError {
    pub message: String,
}

impl CfrError {
    pub fn message(&self) -> (r: String)
        ensures
            r@ == self.message@,
    {
        self.message.clone()
    }
}

/// The arguments that decompile one class of an artifact.
pub open spec fn class_arguments(cfr_jar: Seq<char>, jar_path: Seq<char>, class_name: Seq<char>) -> Seq<
    Seq<char>,
> {
    seq![
        "-jar"@,
        cfr_jar,
        "--extraclasspath"@,
        jar_path,
        class_name,
        "--silent"@,
        "true"@,
        "--comments"@,
        "false"@,
    ]
}

/// The arguments that decompile a whole artifact.
pub open spec fn jar_arguments(cfr_jar: Seq<char>, jar_path: Seq<char>) -> Seq<Seq<char>> {
    seq!["-jar"@, cfr_jar, jar_path, "--silent"@, "true"@, "--comments"@, "false"@]
}

/// What a failed run is reported as.
pub open spec fn failure_message(stderr: Seq<char>) -> Seq<char> {
    "CFR decompilation failed: "@ + trim(stderr)
}

impl Cfr {
    /// The archive that holds the decompiler.
    pub closed spec fn jar(&self) -> Seq<char> {
        self.cfr_jar@
    }

    pub fn new(cfr_jar: String) -> (r: Self)
        ensures
            r.jar() == cfr_jar@,
    {
        Cfr { cfr_jar }
    }

    /// The archive that holds the decompiler.
    pub fn cfr_jar(&self) -> (r: &String)
        ensures
            r@ == self.jar(),
    {
        &self.cfr_jar
    }

    /// The arguments for the Java launcher that decompile `class_name`
    /// with `jar_path` on the class path.
    pub fn class_args(&self, jar_path: &str, class_name: &str) -> (r: Vec<String>)
        ensures
            r.deep_view() == class_arguments(self.jar(), jar_path@, class_name@),
    {
        let mut r: Vec<String> = Vec::new();
        r.push("-jar".to_owned());
        r.push(self.cfr_jar.clone());
        r.push("--extraclasspath".to_owned());
        r.push(jar_path.to_owned());
        r.push(class_name.to_owned());
        r.push("--silent".to_owned());
        r.push("true".to_owned());
        r.push("--comments".to_owned());
        r.push("false".to_owned());
        assert(r.deep_view() =~= class_arguments(self.jar(), jar_path@, class_name@));
        r
    }

    /// The arguments for the Java launcher that decompile all of
    /// `jar_path`.
    pub fn jar_args(&self, jar_path: &str) -> (r: Vec<String>)
        ensures
            r.deep_view() == jar_arguments(self.jar(), jar_path@),
    {
        let mut r: Vec<String> = Vec::new();
        r.push("-jar".to_owned());
        r.push(self.cfr_jar.clone());
        r.push(jar_path.to_owned());
        r.push("--silent".to_owned());
        r.push("true".to_owned());
        r.push("--comments".to_owned());
        r.push("false".to_owned());
        assert(r.deep_view() =~= jar_arguments(self.jar(), jar_path@));
        r
    }

    /// The decompiled text of a run that ended well; of any other run, the
    /// error with what the run wrote to its error stream.
    pub fn read_output(output: &JavaOutput) -> (r: Result<String, CfrError>)
        ensures
            match r {
                Ok(text) => output.success && text@ == output.stdout@,
                Err(e) => !output.success && e.message@ == failure_message(output.stderr@),
            },
    {
        if output.success {
            Ok(output.stdout.clone())
        } else {
            let v = chars_of(output.stderr.as_str());
            assert(v@.subrange(0, v.len() as int) =~= v@);
            let (a, b) = trim_range(&v, 0, v.len());
            let mut message = "CFR decompilation failed: ".to_owned();
            let detail = string_of(&v, a, b);
            message.append(detail.as_str());
            Err(CfrError { message })
        }
    }
}

} // verus!
