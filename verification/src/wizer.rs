//! Pre-initialization in the deploy path: which artifacts ask for it, and what
//! became of running it.
//!
//! Wizer runs a module's initializer once, at deploy, and snapshots the memory
//! that results into the module, so that the boot cost is paid there rather
//! than on every request.
use crate::text::chars_of;
use crate::text::copy_range;
use crate::text::decimal;
use crate::text::decimal_text;
use crate::text::last_of;
use crate::text::lossy;
use crate::text::lossy_text;
use crate::text::rfind;
use crate::text::same;
use crate::text::string_of;
use crate::text::trim;
use crate::text::trim_chars;
use vstd::prelude::*;
use vstd::string::StringExecFns;

verus! {

/// The initializer that a module exports if it wants to be pre-initialized.
pub const INIT_EXPORT: &'static str = "_initialize";

/// Looked up on `PATH`.
pub const WIZER_BIN: &'static str = "wizer";

pub enum WizerError {
    /// Wizer ran and rejected the module. The artifact is the caller's problem.
    Failed(String),
    /// Wizer is not installed. That is the operator's problem, so the deploy
    /// goes on without it.
    Unavailable,
    /// It could not be run, or its output could not be read.
    Io(String),
}

impl WizerError {
    pub open spec fn spec_message(self) -> Seq<char> {
        match self {
            WizerError::Failed(detail) => "wizer rejected the module: "@ + detail@,
            WizerError::Unavailable => "wizer is not installed"@,
            WizerError::Io(why) => "wizer could not be run: "@ + why@,
        }
    }

    pub fn message(&self) -> (out: String)
        ensures
            out@ == self.spec_message(),
    {
        match self {
            WizerError::Failed(detail) => {
                let mut out = String::from_str("wizer rejected the module: ");
                out.append(detail.as_str());
                out
            },
            WizerError::Unavailable => String::from_str("wizer is not installed"),
            WizerError::Io(why) => {
                let mut out = String::from_str("wizer could not be run: ");
                out.append(why.as_str());
                out
            },
        }
    }
}

/// The parts of a module, in order: for an export section the names it exports,
/// with nothing for an export that cannot be read, and nothing for any other
/// part.
pub uninterp spec fn module_parts(artifact: Seq<u8>) -> Seq<Option<Seq<Option<Seq<char>>>>>;

/// One export section as texts.
pub open spec fn section_view(section: Option<Vec<Option<String>>>) -> Option<
    Seq<Option<Seq<char>>>,
> {
    match section {
        Some(list) => Some(list@.map_values(|name: Option<String>| crate::proto::text_of(name))),
        None => None,
    }
}

pub open spec fn parts_view(parts: Seq<Option<Vec<Option<String>>>>) -> Seq<
    Option<Seq<Option<Seq<char>>>>,
> {
    parts.map_values(|section: Option<Vec<Option<String>>>| section_view(section))
}

/// `wasmparser::Parser::parse_all` over a whole module: its payloads are a
/// function of the bytes. Only the names in export sections are looked at, one
/// at a time: how many a section says it has is not to be relied on.
#[verifier::external_body]
fn parse_module(artifact: &[u8]) -> (out: Vec<Option<Vec<Option<String>>>>)
    ensures
        parts_view(out@) == module_parts(artifact@),
{
    wasmparser::Parser::new(0).parse_all(artifact).map(|payload| match payload {
        Ok(wasmparser::Payload::ExportSection(exports)) => {
            let mut names = Vec::new();
            for export in exports {
                names.push(export.ok().map(|e| e.name.to_string()));
            }
            Some(names)
        },
        _ => None,
    }).collect()
}

/// What one export section says: yes at the initializer's name, no at an export
/// that cannot be read, whichever comes first.
pub open spec fn section_says(list: Seq<Option<Seq<char>>>) -> Option<bool>
    decreases list.len(),
{
    if list.len() == 0 {
        None
    } else {
        match list[0] {
            None => Some(false),
            Some(name) => if name == INIT_EXPORT@ {
                Some(true)
            } else {
                section_says(list.drop_first())
            },
        }
    }
}

/// Whether a module exports an initializer. Parts that are no export section,
/// malformed ones too, say nothing: a malformed module fails later, on its own
/// terms.
pub open spec fn parts_say(parts: Seq<Option<Seq<Option<Seq<char>>>>>) -> bool
    decreases parts.len(),
{
    if parts.len() == 0 {
        false
    } else {
        match parts[0] {
            None => parts_say(parts.drop_first()),
            Some(list) => match section_says(list) {
                Some(said) => said,
                None => parts_say(parts.drop_first()),
            },
        }
    }
}

/// Whether the module is in the binary format.
pub open spec fn is_binary(artifact: Seq<u8>) -> bool {
    artifact.len() >= 4 && artifact[0] == 0 && artifact[1] == 0x61 && artifact[2] == 0x73
        && artifact[3] == 0x6d
}

fn scan_section(list: &Vec<Option<String>>) -> (out: Option<bool>)
    ensures
        out == section_says(section_view(Some(*list))->0),
{
    let ghost all = section_view(Some(*list))->0;
    let mut i: usize = 0;
    assert(all.skip(0) =~= all);
    while i < list.len()
        invariant
            i <= list@.len(),
            all == section_view(Some(*list))->0,
            all.len() == list@.len(),
            section_says(all.skip(i as int)) == section_says(all),
        decreases list@.len() - i,
    {
        assert(all.skip(i as int).drop_first() =~= all.skip(i as int + 1));
        assert(all[i as int] == crate::proto::text_of(list@[i as int]));
        match &list[i] {
            None => {
                return Some(false);
            },
            Some(name) => {
                if same(name.as_str(), INIT_EXPORT) {
                    return Some(true);
                }
            },
        }
        i += 1;
    }
    None
}

/// Looks for the initializer in the parts of a module.
pub fn exports_initializer(parts: &Vec<Option<Vec<Option<String>>>>) -> (out: bool)
    ensures
        out == parts_say(parts_view(parts@)),
{
    let ghost all = parts_view(parts@);
    let mut i: usize = 0;
    assert(all.skip(0) =~= all);
    while i < parts.len()
        invariant
            i <= parts@.len(),
            all == parts_view(parts@),
            all.len() == parts@.len(),
            parts_say(all.skip(i as int)) == parts_say(all),
        decreases parts@.len() - i,
    {
        assert(all.skip(i as int).drop_first() =~= all.skip(i as int + 1));
        assert(all[i as int] == section_view(parts@[i as int]));
        if let Some(list) = &parts[i] {
            if let Some(said) = scan_section(list) {
                return said;
            }
        }
        i += 1;
    }
    false
}

/// Whether an artifact goes through Wizer: it has to be a binary module, and it
/// has to export an initializer.
pub fn should_wizen(artifact: &[u8]) -> (out: bool)
    ensures
        out == (is_binary(artifact@) && parts_say(module_parts(artifact@))),
{
    if artifact.len() < 4 || artifact[0] != 0 || artifact[1] != 0x61 || artifact[2] != 0x73
        || artifact[3] != 0x6d {
        return false;
    }
    exports_initializer(&parse_module(artifact))
}

/// How the run of Wizer went.
pub enum Run {
    /// There is no such program.
    Missing,
    /// It could not be started.
    Failed(String),
    Exited { success: bool, stderr: Vec<u8> },
}

/// The last line of what was printed, without the blanks around it all.
pub open spec fn last_line(text: Seq<char>) -> Seq<char> {
    let text = trim(text);
    if text.len() == 0 {
        "no detail"@
    } else {
        text.skip(last_of(text, '\n') + 1)
    }
}

/// What is worth telling of what was printed.
pub fn detail_of(text: &str) -> (out: String)
    ensures
        out@ == last_line(text@),
{
    let chars = chars_of(text);
    let chars = trim_chars(&chars);
    let size: usize = chars.len();
    if size == 0 {
        return String::from_str("no detail");
    }
    match rfind(&chars, '\n') {
        Some(at) => {
            let line = copy_range(&chars, at + 1, size);
            assert(line@ =~= chars@.skip(at + 1));
            string_of(&line)
        },
        None => {
            assert(chars@.skip(0) =~= chars@);
            string_of(&chars)
        },
    }
}

/// Whether the output is there to be read, and what it means if it is not.
pub fn outcome(run: Run) -> (out: Result<(), WizerError>)
    ensures
        match run {
            Run::Missing => out matches Err(WizerError::Unavailable),
            Run::Failed(why) => (out matches Err(WizerError::Io(said)) && said@ == why@),
            Run::Exited { success, stderr } => if success {
                out is Ok
            } else {
                out matches Err(WizerError::Failed(detail)) && detail@ == last_line(
                    lossy_text(stderr@),
                )
            },
        },
{
    match run {
        Run::Missing => Err(WizerError::Unavailable),
        Run::Failed(why) => Err(WizerError::Io(why)),
        Run::Exited { success, stderr } => if success {
            Ok(())
        } else {
            let text = lossy(&stderr);
            Err(WizerError::Failed(detail_of(text.as_str())))
        },
    }
}

/// What the temporaries of one run are called: the process and a count, so that
/// concurrent deploys do not collide.
pub open spec fn stem(process: u32, count: u64) -> Seq<char> {
    "wizer-"@ + decimal(process as nat) + "-"@ + decimal(count as nat)
}

/// The names of the input and of the output of one run.
pub fn scratch_names(process: u32, count: u64) -> (out: (String, String))
    ensures
        out.0@ == stem(process, count) + ".in.wasm"@,
        out.1@ == stem(process, count) + ".out.wasm"@,
{
    let mut input = String::from_str("wizer-");
    input.append(decimal_text(process as u64).as_str());
    input.append("-");
    input.append(decimal_text(count).as_str());
    let mut output = input.clone();
    input.append(".in.wasm");
    output.append(".out.wasm");
    (input, output)
}

/// Text is never pre-initialized, and neither is a module with no export
/// section.
pub proof fn law_only_binary_modules_with_exports_are_wizened(
    artifact: Seq<u8>,
    parts: Seq<Option<Seq<Option<Seq<char>>>>>,
)
    ensures
        artifact.len() > 0 && artifact[0] == '(' as u8 ==> !is_binary(artifact),
        (forall|i: int| 0 <= i < parts.len() ==> (#[trigger] parts[i]) is None) ==> !parts_say(
            parts,
        ),
    decreases parts.len(),
{
    if parts.len() > 0 && (forall|i: int| 0 <= i < parts.len() ==> (#[trigger] parts[i]) is None) {
        let rest = parts.drop_first();
        assert(parts[0] is None);
        assert forall|i: int| 0 <= i < rest.len() implies (#[trigger] rest[i]) is None by {
            assert(rest[i] == parts[i + 1]);
        }
        law_only_binary_modules_with_exports_are_wizened(artifact, rest);
    }
}

#[verifier::rlimit(40)]
proof fn lemma_section_says(list: Seq<Option<Seq<char>>>)
    ensures
        section_says(list) == Some(true) <==> exists|j: int|
            {
                &&& 0 <= j < list.len()
                &&& #[trigger] list[j] == Some("_initialize"@)
                &&& forall|k: int| 0 <= k < j ==> (#[trigger] list[k]) is Some
            },
        section_says(list) is None ==> forall|j: int|
            0 <= j < list.len() ==> (#[trigger] list[j]) is Some && list[j] != Some(
                "_initialize"@,
            ),
        section_says(list) == Some(false) ==> exists|j: int|
            {
                &&& 0 <= j < list.len()
                &&& (#[trigger] list[j]) is None
                &&& forall|k: int| 0 <= k < j ==> list[k] != Some("_initialize"@)
            },
    decreases list.len(),
{
    if list.len() > 0 {
        let rest = list.drop_first();
        assert forall|k: int| 1 <= k < list.len() implies #[trigger] list[k] == rest[k - 1] by {}
        match list[0] {
            None => {},
            Some(name) => {
                if name == INIT_EXPORT@ {
                    assert(list[0] == Some("_initialize"@));
                } else {
                    lemma_section_says(rest);
                    if section_says(rest) == Some(true) {
                        let j = choose|j: int|
                            {
                                &&& 0 <= j < rest.len()
                                &&& #[trigger] rest[j] == Some("_initialize"@)
                                &&& forall|k: int| 0 <= k < j ==> (#[trigger] rest[k]) is Some
                            };
                        assert(list[j + 1] == Some("_initialize"@));
                    }
                    if exists|j: int|
                        {
                            &&& 0 <= j < list.len()
                            &&& #[trigger] list[j] == Some("_initialize"@)
                            &&& forall|k: int| 0 <= k < j ==> (#[trigger] list[k]) is Some
                        } {
                        let j = choose|j: int|
                            {
                                &&& 0 <= j < list.len()
                                &&& #[trigger] list[j] == Some("_initialize"@)
                                &&& forall|k: int| 0 <= k < j ==> (#[trigger] list[k]) is Some
                            };
                        assert(rest[j - 1] == Some("_initialize"@));
                        assert forall|k: int| 0 <= k < j - 1 implies (#[trigger] rest[k]) is Some by {
                            assert(list[k + 1] is Some);
                        }
                    }
                    if section_says(rest) == Some(false) {
                        let j = choose|j: int|
                            {
                                &&& 0 <= j < rest.len()
                                &&& (#[trigger] rest[j]) is None
                                &&& forall|k: int| 0 <= k < j ==> rest[k] != Some("_initialize"@)
                            };
                        assert(list[j + 1] is None);
                    }
                }
            },
        }
    }
}

/// Whether the export at place `j` of section `i` is the initializer, and every
/// export before it, in its own section and in those before, could be read.
pub open spec fn initializer_at(
    parts: Seq<Option<Seq<Option<Seq<char>>>>>,
    i: int,
    j: int,
) -> bool {
    &&& 0 <= i < parts.len()
    &&& parts[i] is Some
    &&& 0 <= j < parts[i]->0.len()
    &&& parts[i]->0[j] == Some("_initialize"@)
    &&& forall|k: int| 0 <= k < j ==> (#[trigger] parts[i]->0[k]) is Some
    &&& forall|h: int, k: int|
        0 <= h < i && parts[h] is Some && 0 <= k < parts[h]->0.len() ==> (
        #[trigger] parts[h]->0[k]) is Some
}

/// A module is pre-initialized exactly when some section exports the initializer,
/// at whatever place, and no export before it is unreadable.
#[verifier::rlimit(40)]
pub proof fn law_an_initializer_is_found_wherever_it_stands(
    parts: Seq<Option<Seq<Option<Seq<char>>>>>,
)
    ensures
        parts_say(parts) <==> exists|i: int, j: int| #[trigger] initializer_at(parts, i, j),
    decreases parts.len(),
{
    if parts.len() > 0 {
        let rest = parts.drop_first();
        law_an_initializer_is_found_wherever_it_stands(rest);
        assert forall|h: int| 1 <= h < parts.len() implies #[trigger] parts[h] == rest[h - 1] by {}
        if let Some(list) = parts[0] {
            lemma_section_says(list);
            if section_says(list) == Some(true) {
                let j = choose|j: int|
                    {
                        &&& 0 <= j < list.len()
                        &&& #[trigger] list[j] == Some("_initialize"@)
                        &&& forall|k: int| 0 <= k < j ==> (#[trigger] list[k]) is Some
                    };
                assert(initializer_at(parts, 0, j));
            }
        }
        let on = parts[0] is None || section_says(parts[0]->0) is None;
        if on && parts_say(rest) {
            let (i, j) = choose|i: int, j: int| #[trigger] initializer_at(rest, i, j);
            assert forall|h: int, k: int|
                0 <= h < i + 1 && parts[h] is Some && 0 <= k < parts[h]->0.len() implies (
            #[trigger] parts[h]->0[k]) is Some by {
                if h > 0 {
                    assert(rest[h - 1]->0[k] is Some);
                }
            }
            assert(parts[i + 1] == rest[i]);
            assert(initializer_at(parts, i + 1, j));
        }
        if exists|i: int, j: int| #[trigger] initializer_at(parts, i, j) {
            let (i, j) = choose|i: int, j: int| #[trigger] initializer_at(parts, i, j);
            if i == 0 {
                assert(parts[0]->0[j] == Some("_initialize"@));
            } else {
                if let Some(list) = parts[0] {
                    assert forall|k: int| 0 <= k < list.len() implies (#[trigger] list[k]) is Some by {
                        assert(parts[0]->0[k] is Some);
                    }
                }
                assert(parts[i] == rest[i - 1]);
                assert forall|h: int, k: int|
                    0 <= h < i - 1 && rest[h] is Some && 0 <= k < rest[h]->0.len() implies (
                #[trigger] rest[h]->0[k]) is Some by {
                    assert(parts[h + 1] == rest[h]);
                    assert(parts[h + 1]->0[k] is Some);
                }
                assert(initializer_at(rest, i - 1, j));
            }
        }
    }
}

/// A binary module begins with a zero byte and the letters `asm`, and nothing else
/// does.
pub proof fn law_a_binary_module_has_its_magic(rest: Seq<u8>, artifact: Seq<u8>)
    ensures
        is_binary(seq![0u8, 97, 115, 109] + rest),
        is_binary(artifact) ==> artifact == seq![0u8, 97, 115, 109] + artifact.skip(4),
{
    if is_binary(artifact) {
        assert(artifact =~= seq![0u8, 97, 115, 109] + artifact.skip(4));
    }
}

/// What is told of what was printed is its last line, whole: what it ends with
/// once the blanks around it are gone, from the last line break on.
pub proof fn law_the_last_line_is_told_whole(text: Seq<char>)
    ensures
        ({
            let all = trim(text);
            let line = last_line(text);
            &&& all.len() == 0 ==> line == "no detail"@
            &&& all.len() > 0 ==> {
                &&& line.len() <= all.len()
                &&& line == all.skip(all.len() - line.len())
                &&& !line.contains('\n')
                &&& line.len() == all.len() || all[all.len() - line.len() - 1] == '\n'
            }
        }),
{
    let all = trim(text);
    crate::text::lemma_last_of(all, '\n');
    if all.len() > 0 {
        let line = last_line(text);
        assert(line =~= all.skip(all.len() - line.len()));
        assert forall|i: int| 0 <= i < line.len() implies line[i] != '\n' by {
            assert(line[i] == all[last_of(all, '\n') + 1 + i]);
        }
    }
}

/// No two runs share their temporaries.
pub proof fn law_no_two_runs_share_a_name(process: u32, count: u64, other: u32, later: u64)
    requires
        stem(process, count) == stem(other, later),
    ensures
        process == other,
        count == later,
{
    reveal_strlit("wizer-");
    reveal_strlit("-");
    let a = decimal(process as nat);
    let b = decimal(count as nat);
    let c = decimal(other as nat);
    let d = decimal(later as nat);
    crate::text::law_decimal_spells_the_number(process as nat);
    crate::text::law_decimal_spells_the_number(count as nat);
    crate::text::law_decimal_spells_the_number(other as nat);
    crate::text::law_decimal_spells_the_number(later as nat);
    let s = stem(process, count);
    assert(s.skip(6) =~= a + "-"@ + b);
    assert(s.skip(6) =~= c + "-"@ + d);
    let t = s.skip(6);
    if a.len() < c.len() {
        assert(t[a.len() as int] == '-');
        assert(t[a.len() as int] == c[a.len() as int]);
    }
    if c.len() < a.len() {
        assert(t[c.len() as int] == '-');
        assert(t[c.len() as int] == a[c.len() as int]);
    }
    assert(a =~= t.take(a.len() as int));
    assert(c =~= t.take(a.len() as int));
    assert(b =~= t.skip(a.len() as int + 1));
    assert(d =~= t.skip(a.len() as int + 1));
}

/// The parts of a module are seen whole: every section in its place, and every export
/// in its own.
pub proof fn law_the_parts_of_a_module_are_seen_whole(
    parts: Seq<Option<Vec<Option<String>>>>,
    i: int,
    j: int,
)
    requires
        0 <= i < parts.len(),
    ensures
        parts_view(parts).len() == parts.len(),
        parts_view(parts)[i] is Some <==> parts[i] is Some,
        parts[i] is Some ==> parts_view(parts)[i]->0.len() == parts[i]->0@.len(),
        parts[i] is Some && 0 <= j < parts[i]->0@.len() ==> (parts_view(parts)[i]->0[j] is Some
            <==> parts[i]->0@[j] is Some),
        parts[i] is Some && 0 <= j < parts[i]->0@.len() && parts[i]->0@[j] is Some ==> parts_view(
            parts,
        )[i]->0[j]->0 == parts[i]->0@[j]->0@,
{
}

/// What went wrong with a run is told in full.
pub proof fn law_what_went_wrong_is_told_in_full(error: WizerError)
    ensures
        error matches WizerError::Failed(detail) ==> error.spec_message()
            == "wizer rejected the module: "@ + detail@,
        error matches WizerError::Io(why) ==> error.spec_message() == "wizer could not be run: "@
            + why@,
{
}

} // verus!
