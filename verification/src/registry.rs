//! Module registry: where artifacts are kept, and what is deployed.
//!
//! Artifacts are addressed by the SHA-256 of their bytes, never by function id,
//! so a new version is a new name and there is no invalidation protocol.
use crate::cache::sha256;
use crate::table::before;
use crate::table::lemma_before_total;
use crate::table::Table;
use crate::text::all_hex;
use crate::text::chars_of;
use crate::text::hex_text;
use crate::text::is_hex;
use crate::text::lemma_utf8_injective;
use vstd::prelude::*;
use vstd::string::StringExecFns;
use vstd::utf8::encode_utf8;

verus! {

/// Artifacts travel in chunks of this many bytes.
pub const CHUNK_BYTES: usize = 0x4_0000;

/// Cap on an artifact: 32 MiB.
pub const MAX_ARTIFACT_BYTES: usize = 0x200_0000;

/// The only layout of the deployment table that is understood.
pub const DEPLOYMENTS_VERSION: u32 = 1;

/// The file that mirrors the deployment table.
pub const DEPLOYMENTS_FILE: &'static str = "deployments.json";

/// Why the registry refused.
#[derive(Clone, Copy, PartialEq, Eq, Structural, Debug)]
pub enum RegistryError {
    TooLarge,
    NotAHash,
}

impl RegistryError {
    pub open spec fn spec_message(self) -> Seq<char> {
        match self {
            RegistryError::TooLarge => "artifact exceeds the 32 MiB cap"@,
            RegistryError::NotAHash => "content_hash must be 64 hex characters"@,
        }
    }

    pub fn message(self) -> (out: &'static str)
        ensures
            out@ == self.spec_message(),
    {
        match self {
            RegistryError::TooLarge => "artifact exceeds the 32 MiB cap",
            RegistryError::NotAHash => "content_hash must be 64 hex characters",
        }
    }
}

/// 64 hexadecimal characters, and nothing else.
pub open spec fn spec_is_content_hash(hash: Seq<char>) -> bool {
    &&& hash.len() == 64
    &&& forall|k: int| 0 <= k < hash.len() ==> is_hex(#[trigger] hash[k])
}

/// Whether `hash` has the shape of a content hash.
pub fn is_content_hash(hash: &str) -> (out: bool)
    ensures
        out == spec_is_content_hash(hash@),
{
    let chars = chars_of(hash);
    chars.len() == 64 && all_hex(&chars)
}

/// The content hash of `wasm`, in hexadecimal.
pub open spec fn hash_text(wasm: Seq<u8>) -> Seq<char> {
    hex_text(sha256(wasm))
}

/// SHA-256 of `wasm`, hex encoded.
pub fn content_hash_hex(wasm: &[u8]) -> (out: String)
    requires
        wasm@.len() < 0x2000_0000_0000_0000,
    ensures
        out@ == hash_text(wasm@),
        spec_is_content_hash(out@),
{
    crate::cache::content_hash_hex(wasm)
}

/// Where the artifacts are.
pub struct Registry {
    dir: String,
}

/// A file in a directory.
pub open spec fn joined(dir: Seq<char>, name: Seq<char>) -> Seq<char> {
    if dir.len() == 0 || dir.last() == '/' {
        dir + name
    } else {
        dir + "/"@ + name
    }
}

/// The file that an artifact is kept in.
pub open spec fn file_name(hash: Seq<char>) -> Seq<char> {
    hash + ".wasm"@
}

/// Whether a disk, as a map from paths to contents, holds the artifact `hash` of
/// the registry in `dir`. Where the name is no hash, no path is looked at.
pub open spec fn holds(disk: Map<Seq<char>, Seq<u8>>, dir: Seq<char>, hash: Seq<char>) -> bool {
    spec_is_content_hash(hash) && disk.contains_key(joined(dir, file_name(hash)))
}

/// What such a disk gives for `hash`.
pub open spec fn read_from(
    disk: Map<Seq<char>, Seq<u8>>,
    dir: Seq<char>,
    hash: Seq<char>,
) -> Option<Seq<u8>> {
    if holds(disk, dir, hash) {
        Some(disk[joined(dir, file_name(hash))])
    } else {
        None
    }
}

/// Such a disk once `wasm` was written where its name leads.
pub open spec fn stored_to(
    disk: Map<Seq<char>, Seq<u8>>,
    dir: Seq<char>,
    wasm: Seq<u8>,
) -> Map<Seq<char>, Seq<u8>> {
    disk.insert(joined(dir, file_name(hash_text(wasm))), wasm)
}

impl Registry {
    pub closed spec fn spec_dir(&self) -> Seq<char> {
        self.dir@
    }

    pub fn new(dir: &str) -> (out: Self)
        ensures
            out.spec_dir() == dir@,
    {
        Registry { dir: dir.to_owned() }
    }

    pub fn dir(&self) -> (out: &str)
        ensures
            out@ == self.spec_dir(),
    {
        self.dir.as_str()
    }

    /// The name an artifact is stored under, if it may be stored.
    pub fn put(&self, wasm: &[u8]) -> (out: Result<String, RegistryError>)
        ensures
            match out {
                Ok(hash) => wasm@.len() <= MAX_ARTIFACT_BYTES && hash@ == hash_text(wasm@)
                    && spec_is_content_hash(hash@),
                Err(why) => wasm@.len() > MAX_ARTIFACT_BYTES && why == RegistryError::TooLarge,
            },
    {
        if wasm.len() > MAX_ARTIFACT_BYTES {
            return Err(RegistryError::TooLarge);
        }
        Ok(content_hash_hex(wasm))
    }

    /// Where the artifact `hash` is on disk.
    ///
    /// `hash` arrives from the network, so anything that is not a hash is
    /// refused: its shape is checked, and nothing is sanitised.
    pub fn path(&self, hash: &str) -> (out: Result<String, RegistryError>)
        ensures
            match out {
                Ok(path) => spec_is_content_hash(hash@) && path@ == joined(
                    self.spec_dir(),
                    file_name(hash@),
                ),
                Err(why) => !spec_is_content_hash(hash@) && why == RegistryError::NotAHash,
            },
    {
        if !is_content_hash(hash) {
            return Err(RegistryError::NotAHash);
        }
        let mut out = self.dir.clone();
        let chars = chars_of(self.dir.as_str());
        let size: usize = chars.len();
        if size > 0 && chars[size - 1] != '/' {
            out.append("/");
        }
        out.append(hash);
        out.append(".wasm");
        proof {
            if self.dir@.len() == 0 || self.dir@.last() == '/' {
                assert(out@ =~= self.dir@ + file_name(hash@));
            } else {
                assert(out@ =~= self.dir@ + "/"@ + file_name(hash@));
            }
        }
        Ok(out)
    }

    /// Whether the registry holds `hash`, given whether there is a file where
    /// it would be.
    pub fn contains(&self, hash: &str, is_file: bool) -> (out: bool)
        ensures
            out == (spec_is_content_hash(hash@) && is_file),
            forall|disk: Map<Seq<char>, Seq<u8>>|
                is_file == disk.contains_key(joined(self.spec_dir(), file_name(hash@))) ==> out
                    == #[trigger] holds(disk, self.spec_dir(), hash@),
    {
        is_file && is_content_hash(hash)
    }
}

/// A hash names a file directly in the registry's directory: nothing in the
/// name can lead anywhere else.
pub proof fn law_a_hash_stays_in_the_directory(hash: Seq<char>)
    requires
        spec_is_content_hash(hash),
    ensures
        !file_name(hash).contains('/'),
        file_name(hash).len() == 69,
        file_name(hash)[0] != '.',
{
    reveal_strlit(".wasm");
    assert(is_hex(hash[0]));
    assert forall|k: int| 0 <= k < file_name(hash).len() implies file_name(hash)[k] != '/' by {
        if k < 64 {
            assert(is_hex(hash[k]));
        }
    }
}

/// An artifact that was stored under the name that [`Registry::put`] gave it is
/// there and is read back as it was; what is kept under another name stays as it
/// was, and what is no hash is never found.
pub proof fn law_a_stored_artifact_is_read_back(
    disk: Map<Seq<char>, Seq<u8>>,
    dir: Seq<char>,
    wasm: Seq<u8>,
    other: Seq<char>,
)
    requires
        spec_is_content_hash(hash_text(wasm)),
    ensures
        ({
            let after = stored_to(disk, dir, wasm);
            &&& holds(after, dir, hash_text(wasm))
            &&& read_from(after, dir, hash_text(wasm)) == Some(wasm)
            &&& other != hash_text(wasm) ==> read_from(after, dir, other) == read_from(
                disk,
                dir,
                other,
            )
            &&& !spec_is_content_hash(other) ==> !holds(after, dir, other) && read_from(
                after,
                dir,
                other,
            ) is None
        }),
{
    let hash = hash_text(wasm);
    if spec_is_content_hash(other) && joined(dir, file_name(other)) == joined(dir, file_name(hash)) {
        let path = joined(dir, file_name(hash));
        let from = path.len() - file_name(hash).len();
        assert(file_name(hash).len() == file_name(other).len());
        assert(path.skip(from) =~= file_name(hash));
        assert(path.skip(from) =~= file_name(other));
        assert(file_name(hash).take(64) =~= hash);
        assert(file_name(other).take(64) =~= other);
    }
}

/// Describes a function to an agent.
pub struct Tool {
    pub description: String,
    /// A JSON Schema, as the text it arrived in: it is passed on untouched.
    pub input_schema: String,
}

pub struct ToolView {
    pub description: Seq<char>,
    pub input_schema: Seq<char>,
}

impl View for Tool {
    type V = ToolView;

    open spec fn view(&self) -> ToolView {
        ToolView { description: self.description@, input_schema: self.input_schema@ }
    }
}

impl Clone for Tool {
    fn clone(&self) -> (out: Self)
        ensures
            out@ == self@,
    {
        Tool { description: self.description.clone(), input_schema: self.input_schema.clone() }
    }
}

/// One function, as it is saved.
pub struct Row {
    pub id: String,
    pub hash: String,
    pub tool: Option<Tool>,
}

/// What is known of one function.
pub struct Deployed {
    pub hash: Seq<char>,
    pub tool: Option<ToolView>,
}

/// Which artifact each function runs, and how functions are described.
pub struct Deployments {
    rows: Table<Row>,
}

pub open spec fn deployed_of(row: Row) -> Deployed {
    Deployed {
        hash: row.hash@,
        tool: match row.tool {
            Some(tool) => Some(tool@),
            None => None,
        },
    }
}

spec fn rows_wf(rows: Map<Seq<u8>, Row>) -> bool {
    forall|k: Seq<u8>| #[trigger] rows.contains_key(k) ==> k == encode_utf8(rows[k].id@)
}

spec fn table_of(rows: Map<Seq<u8>, Row>) -> Map<Seq<char>, Deployed> {
    Map::new(
        |id: Seq<char>| rows.contains_key(encode_utf8(id)),
        |id: Seq<char>| deployed_of(rows[encode_utf8(id)]),
    )
}

impl View for Deployments {
    type V = Map<Seq<char>, Deployed>;

    closed spec fn view(&self) -> Map<Seq<char>, Deployed> {
        table_of(self.rows@)
    }
}

/// The table that deploying every row in turn makes.
pub open spec fn restored(rows: Seq<Row>) -> Map<Seq<char>, Deployed>
    decreases rows.len(),
{
    if rows.len() == 0 {
        Map::empty()
    } else {
        restored(rows.drop_last()).insert(rows.last().id@, deployed_of(rows.last()))
    }
}

/// Rows in the order of their ids, none of which occurs twice.
pub open spec fn in_order(rows: Seq<Row>) -> bool {
    forall|i: int, j: int|
        0 <= i < j < rows.len() ==> before(
            encode_utf8((#[trigger] rows[i]).id@),
            encode_utf8((#[trigger] rows[j]).id@),
        )
}

proof fn lemma_restored(rows: Seq<Row>)
    requires
        in_order(rows),
    ensures
        forall|i: int|
            0 <= i < rows.len() ==> restored(rows).contains_key((#[trigger] rows[i]).id@)
                && restored(rows)[rows[i].id@] == deployed_of(rows[i]),
        forall|id: Seq<char>| #[trigger]
            restored(rows).contains_key(id) ==> exists|i: int|
                0 <= i < rows.len() && (#[trigger] rows[i]).id@ == id,
    decreases rows.len(),
{
    if rows.len() > 0 {
        let init = rows.drop_last();
        let last = rows.len() - 1;
        lemma_restored(init);
        assert forall|i: int| 0 <= i < rows.len() implies restored(rows).contains_key(
            (#[trigger] rows[i]).id@,
        ) && restored(rows)[rows[i].id@] == deployed_of(rows[i]) by {
            if i < last {
                assert(init[i] == rows[i]);
                lemma_before_total(encode_utf8(rows[i].id@), encode_utf8(rows[last].id@));
            }
        }
        assert forall|id: Seq<char>| #[trigger] restored(rows).contains_key(id) implies exists|i: int|
            0 <= i < rows.len() && (#[trigger] rows[i]).id@ == id by {
            if id == rows[last].id@ {
            } else {
                let i = choose|i: int| 0 <= i < init.len() && (#[trigger] init[i]).id@ == id;
                assert(rows[i].id@ == id);
            }
        }
    }
}

/// The functions that carry a description: the others are left out, since a
/// tool that a model cannot understand is worse than one it cannot see.
pub open spec fn described(table: Map<Seq<char>, Deployed>) -> Map<Seq<char>, ToolView> {
    Map::new(
        |id: Seq<char>| table.contains_key(id) && table[id].tool is Some,
        |id: Seq<char>| table[id].tool->0,
    )
}

/// A listing of tools, as a map.
pub open spec fn lists(list: Seq<(String, Tool)>, tools: Map<Seq<char>, ToolView>) -> bool {
    &&& forall|i: int|
        0 <= i < list.len() ==> tools.contains_key((#[trigger] list[i]).0@) && tools[list[i].0@]
            == list[i].1@
    &&& forall|i: int, j: int|
        0 <= i < j < list.len() ==> (#[trigger] list[i]).0@ != (#[trigger] list[j]).0@
    &&& forall|id: Seq<char>| #[trigger]
        tools.contains_key(id) ==> exists|i: int| 0 <= i < list.len() && (#[trigger] list[i]).0@ == id
}

/// A deployment table that could not be understood.
#[derive(Clone, Copy, PartialEq, Eq, Structural, Debug)]
pub struct UnknownVersion(pub u32);

impl Deployments {
    pub closed spec fn wf(&self) -> bool {
        self.rows.wf() && rows_wf(self.rows@)
    }

    pub fn new() -> (out: Self)
        ensures
            out.wf(),
            out@ == Map::<Seq<char>, Deployed>::empty(),
    {
        let out = Deployments { rows: Table::new() };
        assert(out@ =~= Map::<Seq<char>, Deployed>::empty());
        out
    }

    /// The table that was saved as `rows`, if its layout is one that is
    /// understood. Any other stops startup: coming up empty would look like
    /// every function vanishing for no reason.
    pub fn restore(version: u32, rows: Vec<Row>) -> (out: Result<Self, UnknownVersion>)
        ensures
            match out {
                Ok(table) => version == DEPLOYMENTS_VERSION && table.wf() && table@ == restored(
                    rows@,
                ),
                Err(why) => version != DEPLOYMENTS_VERSION && why == UnknownVersion(version),
            },
    {
        if version != DEPLOYMENTS_VERSION {
            return Err(UnknownVersion(version));
        }
        let mut table = Deployments::new();
        let mut i: usize = 0;
        assert(rows@.take(0) =~= Seq::<Row>::empty());
        while i < rows.len()
            invariant
                table.wf(),
                i <= rows@.len(),
                table@ == restored(rows@.take(i as int)),
            decreases rows@.len() - i,
        {
            let tool = match &rows[i].tool {
                Some(tool) => Some(tool.clone()),
                None => None,
            };
            table.deploy(rows[i].id.as_str(), rows[i].hash.as_str(), tool);
            assert(rows@.take(i + 1).drop_last() =~= rows@.take(i as int));
            i += 1;
        }
        assert(rows@.take(i as int) =~= rows@);
        Ok(table)
    }

    /// Points `id` at an artifact. A deploy without a description clears the
    /// old one: a stale description of a function that has changed tells a
    /// model confidently wrong things.
    pub fn deploy(&mut self, id: &str, hash: &str, tool: Option<Tool>)
        requires
            old(self).wf(),
        ensures
            final(self).wf(),
            final(self)@ == old(self)@.insert(
                id@,
                Deployed {
                    hash: hash@,
                    tool: match tool {
                        Some(tool) => Some(tool@),
                        None => None,
                    },
                },
            ),
    {
        let key = vstd::slice::slice_to_vec(id.as_bytes());
        let row = Row { id: id.to_owned(), hash: hash.to_owned(), tool };
        let ghost before = self.rows@;
        self.rows.put(key, row);
        proof {
            let now = self.rows@;
            assert(now == before.insert(encode_utf8(id@), row));
            let want = table_of(before).insert(id@, deployed_of(row));
            assert forall|q: Seq<char>|
                #![trigger table_of(now).dom().contains(q)]
                #![trigger want.dom().contains(q)]
                table_of(now).dom().contains(q) == want.dom().contains(q) && (want.dom().contains(q)
                    ==> table_of(now)[q] == want[q]) by {
                if encode_utf8(q) == encode_utf8(id@) {
                    lemma_utf8_injective(q, id@);
                }
            }
            assert(table_of(now) =~= want);
        }
    }

    pub fn content_hash_of(&self, id: &str) -> (out: Option<String>)
        requires
            self.wf(),
        ensures
            match out {
                Some(hash) => self@.contains_key(id@) && hash@ == self@[id@].hash,
                None => !self@.contains_key(id@),
            },
    {
        match self.rows.get(id.as_bytes()) {
            Some(row) => Some(row.hash.clone()),
            None => None,
        }
    }

    /// What is known of `id`, as it would be saved.
    pub fn row_of(&self, id: &str) -> (out: Option<Row>)
        requires
            self.wf(),
        ensures
            match out {
                Some(row) => self@.contains_key(id@) && row.id@ == id@ && deployed_of(row)
                    == self@[id@],
                None => !self@.contains_key(id@),
            },
    {
        match self.rows.get(id.as_bytes()) {
            Some(row) => {
                let tool = match &row.tool {
                    Some(tool) => Some(tool.clone()),
                    None => None,
                };
                Some(Row { id: id.to_owned(), hash: row.hash.clone(), tool })
            },
            None => None,
        }
    }

    /// Forgets `id`.
    pub fn withdraw(&mut self, id: &str)
        requires
            old(self).wf(),
        ensures
            final(self).wf(),
            final(self)@ == old(self)@.remove(id@),
    {
        let ghost before = self.rows@;
        let _ = self.rows.remove(id.as_bytes());
        proof {
            let now = self.rows@;
            let want = table_of(before).remove(id@);
            assert(now == before.remove(encode_utf8(id@)));
            assert forall|q: Seq<char>|
                #![trigger table_of(now).dom().contains(q)]
                #![trigger want.dom().contains(q)]
                table_of(now).dom().contains(q) == want.dom().contains(q) && (want.dom().contains(q)
                    ==> table_of(now)[q] == want[q]) by {
                if encode_utf8(q) == encode_utf8(id@) {
                    lemma_utf8_injective(q, id@);
                }
            }
            assert(table_of(now) =~= want);
        }
    }

    /// How many functions are deployed.
    pub fn deployed(&self) -> (out: usize)
        requires
            self.wf(),
        ensures
            self@.dom().finite(),
            out == self@.len(),
    {
        proof {
            lemma_len(self.rows);
        }
        self.rows.len()
    }

    /// The table as it is saved: restoring what was saved gives it back.
    pub fn saved(&self) -> (out: Vec<Row>)
        requires
            self.wf(),
        ensures
            restored(out@) == self@,
            in_order(out@),
    {
        let mut out: Vec<Row> = Vec::new();
        let ghost keys = self.rows.keys();
        let mut i: usize = 0;
        proof {
            self.rows.lemma_keys();
        }
        while i < self.rows.len()
            invariant
                self.wf(),
                keys == self.rows.keys(),
                i <= keys.len(),
                out@.len() == i,
                forall|n: int|
                    0 <= n < i ==> encode_utf8((#[trigger] out@[n]).id@) == keys[n] && deployed_of(
                        out@[n],
                    ) == deployed_of(self.rows@[keys[n]]),
            decreases keys.len() - i,
        {
            proof {
                self.rows.lemma_keys();
                assert(self.rows@.contains_key(keys[i as int]));
            }
            let row = self.rows.value_at(i);
            let tool = match &row.tool {
                Some(tool) => Some(tool.clone()),
                None => None,
            };
            out.push(Row { id: row.id.clone(), hash: row.hash.clone(), tool });
            i += 1;
        }
        proof {
            self.rows.lemma_keys();
            lemma_restored(out@);
            let back = restored(out@);
            assert forall|id: Seq<char>|
                #![trigger back.dom().contains(id)]
                #![trigger self@.dom().contains(id)]
                back.dom().contains(id) == self@.dom().contains(id) && (self@.dom().contains(id)
                    ==> back[id] == self@[id]) by {
                if back.contains_key(id) {
                    let n = choose|n: int| 0 <= n < out@.len() && (#[trigger] out@[n]).id@ == id;
                    assert(self.rows@.contains_key(keys[n]));
                }
                if self@.contains_key(id) {
                    let k = encode_utf8(id);
                    assert(keys.contains(k));
                    let n = keys.index_of(k);
                    assert(encode_utf8(out@[n].id@) == k);
                    lemma_utf8_injective(out@[n].id@, id);
                    assert(back.contains_key(out@[n].id@));
                }
            }
            assert(back =~= self@);
        }
        out
    }

    /// Every deployed function that carries a description.
    pub fn tools(&self) -> (out: Vec<(String, Tool)>)
        requires
            self.wf(),
        ensures
            lists(out@, described(self@)),
    {
        let mut out: Vec<(String, Tool)> = Vec::new();
        let ghost keys = self.rows.keys();
        let mut i: usize = 0;
        proof {
            self.rows.lemma_keys();
        }
        while i < self.rows.len()
            invariant
                self.wf(),
                keys == self.rows.keys(),
                i <= keys.len(),
                forall|n: int|
                    0 <= n < out@.len() ==> described(self@).contains_key((#[trigger] out@[n]).0@)
                        && described(self@)[out@[n].0@] == out@[n].1@,
                forall|n: int|
                    0 <= n < out@.len() ==> exists|j: int|
                        0 <= j < i && #[trigger] keys[j] == encode_utf8((#[trigger] out@[n]).0@),
                forall|n: int, m: int|
                    0 <= n < m < out@.len() ==> (#[trigger] out@[n]).0@ != (#[trigger] out@[m]).0@,
                forall|j: int|
                    0 <= j < i && described(self@).contains_key(
                        (self.rows@[#[trigger] keys[j]]).id@,
                    ) ==> exists|n: int|
                        0 <= n < out@.len() && (#[trigger] out@[n]).0@ == self.rows@[keys[j]].id@,
            decreases keys.len() - i,
        {
            let ghost before = out@;
            proof {
                self.rows.lemma_keys();
                assert(self.rows@.contains_key(keys[i as int]));
            }
            let row = self.rows.value_at(i);
            let ghost id = row.id@;
            assert(encode_utf8(id) == keys[i as int]);
            if let Some(tool) = &row.tool {
                out.push((row.id.clone(), tool.clone()));
                proof {
                    assert(self@.contains_key(id));
                    assert forall|n: int|
                        0 <= n < out@.len() implies described(self@).contains_key(
                        (#[trigger] out@[n]).0@,
                    ) && described(self@)[out@[n].0@] == out@[n].1@ by {
                        if n < before.len() {
                            assert(out@[n] == before[n]);
                        }
                    }
                    assert forall|n: int|
                        0 <= n < out@.len() implies exists|j: int|
                        0 <= j < i + 1 && #[trigger] keys[j] == encode_utf8((#[trigger] out@[n]).0@) by {
                        if n < before.len() {
                            assert(out@[n] == before[n]);
                            let j = choose|j: int|
                                0 <= j < i && #[trigger] keys[j] == encode_utf8(before[n].0@);
                            assert(keys[j] == encode_utf8(out@[n].0@));
                        } else {
                            assert(keys[i as int] == encode_utf8(out@[n].0@));
                        }
                    }
                    assert forall|n: int, m: int|
                        0 <= n < m < out@.len() implies (#[trigger] out@[n]).0@ != (
                    #[trigger] out@[m]).0@ by {
                        if m < before.len() {
                            assert(out@[n] == before[n] && out@[m] == before[m]);
                        } else {
                            assert(out@[n] == before[n]);
                            let j = choose|j: int|
                                0 <= j < i && #[trigger] keys[j] == encode_utf8(before[n].0@);
                            assert(keys[j] != keys[i as int]);
                        }
                    }
                }
            }
            proof {
                assert forall|j: int|
                    0 <= j < i + 1 && described(self@).contains_key(
                        (self.rows@[#[trigger] keys[j]]).id@,
                    ) implies exists|n: int|
                    0 <= n < out@.len() && (#[trigger] out@[n]).0@ == self.rows@[keys[j]].id@ by {
                    if j < i {
                        let n = choose|n: int|
                            0 <= n < before.len() && (#[trigger] before[n]).0@
                                == self.rows@[keys[j]].id@;
                        assert(out@[n] == before[n]);
                    } else {
                        assert(row.tool is Some);
                        assert(out@[before.len() as int].0@ == id);
                    }
                }
            }
            i += 1;
        }
        proof {
            self.rows.lemma_keys();
            assert forall|id: Seq<char>| #[trigger]
                described(self@).contains_key(id) implies exists|n: int|
                0 <= n < out@.len() && (#[trigger] out@[n]).0@ == id by {
                let k = encode_utf8(id);
                assert(self.rows@.contains_key(k));
                let j = keys.index_of(k);
                assert(keys[j] == k);
                lemma_utf8_injective(self.rows@[k].id@, id);
                assert(described(self@).contains_key(self.rows@[keys[j]].id@));
            }
        }
        out
    }
}

proof fn lemma_len(rows: Table<Row>)
    requires
        rows.wf(),
        rows_wf(rows@),
    ensures
        table_of(rows@).dom().finite(),
        table_of(rows@).len() == rows@.len(),
        rows.keys().len() == rows@.len(),
{
    rows.lemma_keys();
    let keys = rows.keys();
    let ids = keys.map_values(|k: Seq<u8>| rows@[k].id@);
    assert forall|i: int, j: int| 0 <= i < ids.len() && 0 <= j < ids.len() && i != j implies ids[i]
        != ids[j] by {
        assert(rows@.contains_key(keys[i]));
        assert(rows@.contains_key(keys[j]));
        assert(encode_utf8(ids[i]) == keys[i]);
        assert(encode_utf8(ids[j]) == keys[j]);
    }
    assert forall|id: Seq<char>| ids.contains(id) == table_of(rows@).dom().contains(id) by {
        if ids.contains(id) {
            let i = ids.index_of(id);
            assert(rows@.contains_key(keys[i]));
        }
        if table_of(rows@).dom().contains(id) {
            let k = encode_utf8(id);
            assert(rows@.contains_key(k));
            let i = keys.index_of(k);
            assert(keys[i] == k);
            lemma_utf8_injective(rows@[k].id@, id);
            assert(ids[i] == id);
        }
    }
    assert(ids.to_set() =~= table_of(rows@).dom());
    ids.unique_seq_to_set();
    vstd::seq_lib::seq_to_set_is_finite(ids);
}

/// A deploy changes one function and no other, and a description goes with the
/// artifact it described.
pub proof fn law_a_deploy_changes_one_function(
    table: Map<Seq<char>, Deployed>,
    id: Seq<char>,
    hash: Seq<char>,
    tool: Option<ToolView>,
    other: Seq<char>,
)
    ensures
        ({
            let after = table.insert(id, Deployed { hash, tool });
            &&& after[id].hash == hash
            &&& described(after).contains_key(id) <==> tool is Some
            &&& other != id ==> after.contains_key(other) == table.contains_key(other) && (
            table.contains_key(other) ==> after[other] == table[other])
        }),
{
}

/// A content hash is sixty-four hexadecimal digits: two for every byte of the
/// SHA-256 digest of the whole artifact.
pub proof fn law_a_name_is_the_digest_of_the_whole(wasm: Seq<u8>, i: int)
    requires
        0 <= i < sha256(wasm).len(),
    ensures
        hash_text(wasm).len() == 2 * sha256(wasm).len(),
        hash_text(wasm)[2 * i] == "0123456789abcdef"@[sha256(wasm)[i] as int / 16],
        hash_text(wasm)[2 * i + 1] == "0123456789abcdef"@[sha256(wasm)[i] as int % 16],
{
    crate::text::lemma_hex_text(sha256(wasm));
    let b = sha256(wasm)[i] as int;
    crate::text::law_hex_digits(b / 16, '0');
    crate::text::law_hex_digits(b % 16, '0');
}

/// An artifact lies directly in the directory, in a file that is its hash with
/// `.wasm` behind it.
pub proof fn law_an_artifact_lies_under_its_hash(dir: Seq<char>, hash: Seq<char>)
    ensures
        dir.len() > 0 && dir.last() != '/' ==> joined(dir, file_name(hash)) == dir + seq!['/'] + hash
            + seq!['.', 'w', 'a', 's', 'm'],
        dir.len() == 0 || dir.last() == '/' ==> joined(dir, file_name(hash)) == dir + hash + seq![
            '.',
            'w',
            'a',
            's',
            'm',
        ],
{
    reveal_strlit(".wasm");
    reveal_strlit("/");
    let end = seq!['.', 'w', 'a', 's', 'm'];
    assert(".wasm"@ =~= end);
    assert("/"@ =~= seq!['/']);
    if dir.len() > 0 && dir.last() != '/' {
        assert(joined(dir, file_name(hash)) =~= dir + seq!['/'] + hash + end);
    } else {
        assert(joined(dir, file_name(hash)) =~= dir + hash + end);
    }
}

/// A restored table has every function that a row names, as the last row for it says.
pub proof fn law_the_last_row_of_a_function_counts(rows: Seq<Row>, i: int)
    requires
        0 <= i < rows.len(),
        forall|k: int| i < k < rows.len() ==> (#[trigger] rows[k]).id@ != rows[i].id@,
    ensures
        restored(rows).contains_key(rows[i].id@),
        restored(rows)[rows[i].id@].hash == rows[i].hash@,
        restored(rows)[rows[i].id@].tool is Some <==> rows[i].tool is Some,
        rows[i].tool is Some ==> restored(rows)[rows[i].id@].tool->0 == rows[i].tool->0@,
    decreases rows.len(),
{
    let init = rows.drop_last();
    if i < init.len() {
        assert(init[i] == rows[i]);
        assert forall|k: int| i < k < init.len() implies (#[trigger] init[k]).id@ != init[i].id@ by {
            assert(init[k] == rows[k]);
        }
        law_the_last_row_of_a_function_counts(init, i);
        assert(rows[rows.len() - 1].id@ != rows[i].id@);
    }
}

/// A restored table has no function that no row names.
pub proof fn law_a_function_without_a_row_is_not_restored(rows: Seq<Row>, id: Seq<char>)
    requires
        forall|i: int| 0 <= i < rows.len() ==> (#[trigger] rows[i]).id@ != id,
    ensures
        !restored(rows).contains_key(id),
    decreases rows.len(),
{
    if rows.len() > 0 {
        let init = rows.drop_last();
        assert forall|i: int| 0 <= i < init.len() implies (#[trigger] init[i]).id@ != id by {
            assert(init[i] == rows[i]);
        }
        law_a_function_without_a_row_is_not_restored(init, id);
        assert(rows[rows.len() - 1].id@ != id);
    }
}

/// The tools are the functions that carry a description, with that description.
pub proof fn law_described_functions_are_the_tools(table: Map<Seq<char>, Deployed>, id: Seq<char>)
    ensures
        described(table).contains_key(id) <==> table.contains_key(id) && table[id].tool is Some,
        described(table).contains_key(id) ==> Some(described(table)[id]) == table[id].tool,
{
}

/// What is saved of a function is seen whole.
pub proof fn law_a_row_is_seen_whole(row: Row, tool: Tool)
    ensures
        deployed_of(row).hash == row.hash@,
        row.tool is Some <==> deployed_of(row).tool is Some,
        row.tool is Some ==> deployed_of(row).tool->0 == row.tool->0@,
        tool@.description == tool.description@ && tool@.input_schema == tool.input_schema@,
        DEPLOYMENTS_VERSION == 1,
{
}

/// A listing names every tool once, with its whole description, and nothing else.
pub proof fn law_a_listing_names_every_tool(
    list: Seq<(String, Tool)>,
    tools: Map<Seq<char>, ToolView>,
    id: Seq<char>,
)
    requires
        lists(list, tools),
    ensures
        tools.contains_key(id) <==> exists|i: int| 0 <= i < list.len() && (#[trigger] list[i]).0@ == id,
        forall|i: int|
            0 <= i < list.len() && (#[trigger] list[i]).0@ == id ==> list[i].1@ == tools[id],
        forall|i: int, j: int|
            0 <= i < list.len() && 0 <= j < list.len() && (#[trigger] list[i]).0@ == (
            #[trigger] list[j]).0@ ==> i == j,
{
}

} // verus!
