//! Connections as the sidebar holds them, server groups, pending cell edits,
//! and the byte sizes shown next to schema objects.
use crate::bytes::str_eq;
use crate::dialogs::{connection_target_changed, same_target};
use crate::models::{ConnectionConfig, SchemaTree};
use crate::seqs::{first_where, lemma_first_found, lemma_first_none};
use crate::text::push_char;
use std::sync::Arc;
use vstd::prelude::*;

verus! {

pub type TabId = String;

/// A lower-case hyphenated version-4 UUID: 32 hex digits with hyphens after
/// the 8th, 12th, 16th and 20th, the version digit `4`.
pub open spec fn uuid_shaped(r: Seq<char>) -> bool {
    &&& r.len() == 36
    &&& r[8] == '-' && r[13] == '-' && r[18] == '-' && r[23] == '-'
    &&& r[14] == '4'
    &&& forall|i: int|
        0 <= i < 36 && i != 8 && i != 13 && i != 18 && i != 23 ==> ('0' <= #[trigger] r[i] <= '9' || 'a'
            <= r[i] <= 'f')
}

/// A fresh random tab or group id: a lower-case hyphenated version-4 UUID.
///
/// Calls `uuid::Uuid::new_v4` and formats it with `Display`; the uuid crate
/// writes the 16 bytes as 32 lower-case hex digits with hyphens after the
/// 8th, 12th, 16th and 20th, and sets the version nibble to 4. Which bytes
/// come out is chance and is not stated.
#[verifier::external_body]
pub fn new_id() -> (r: String)
    ensures
        uuid_shaped(r@),
{
    uuid::Uuid::new_v4().to_string()
}

/// A saved connection together with what has been loaded for it.
#[derive(Clone)]
pub struct ActiveConnection {
    pub config: ConnectionConfig,
    pub schema: Option<Arc<SchemaTree>>,
    pub schema_loading: bool,
    pub schema_error: Option<String>,
}

impl ActiveConnection {
    /// A connection with nothing loaded yet.
    pub fn new(config: ConnectionConfig) -> (r: Self)
        ensures
            r.config == config,
            r.schema is None,
            !r.schema_loading,
            r.schema_error is None,
    {
        ActiveConnection { config, schema: None, schema_loading: false, schema_error: None }
    }
}

/// The connection with id `id`.
pub open spec fn has_conn_id(id: Seq<char>) -> spec_fn(ActiveConnection) -> bool {
    |c: ActiveConnection| c.config.id@ == id
}

/// The sidebar's connections once `form` was saved: the first connection with
/// its id takes the new settings, and forgets its loaded schema when the way
/// to the server changed; a form with a new id becomes a new connection at
/// the end.
pub open spec fn saved_connections(
    conns: Seq<ActiveConnection>,
    form: ConnectionConfig,
    previous: Option<ConnectionConfig>,
) -> Seq<ActiveConnection> {
    let refresh = match previous {
        None => true,
        Some(p) => !same_target(p, form),
    };
    match first_where(conns, has_conn_id(form.id@)) {
        Some(i) => conns.update(
            i,
            if refresh {
                ActiveConnection { config: form, schema: None, schema_loading: false, schema_error: None }
            } else {
                ActiveConnection { config: form, ..conns[i] }
            },
        ),
        None => conns.push(
            ActiveConnection { config: form, schema: None, schema_loading: false, schema_error: None },
        ),
    }
}

/// Records a connection that was just saved: see `saved_connections`.
/// Says whether it was one the sidebar already had.
pub fn record_saved_connection(
    connections: &mut Vec<ActiveConnection>,
    form: ConnectionConfig,
    previous: Option<&ConnectionConfig>,
) -> (existed: bool)
    ensures
        final(connections)@ == saved_connections(
            old(connections)@,
            form,
            match previous {
                Some(p) => Some(*p),
                None => None,
            },
        ),
        existed == first_where(old(connections)@, has_conn_id(form.id@)) is Some,
{
    let refresh = connection_target_changed(previous, &form);
    let ghost p = has_conn_id(form.id@);
    let mut i: usize = 0;
    while i < connections.len()
        invariant
            *connections == *old(connections),
            p == has_conn_id(form.id@),
            refresh == match previous {
                None => true,
                Some(q) => !same_target(*q, form),
            },
            i <= connections@.len(),
            forall|j: int| 0 <= j < i ==> !p(#[trigger] connections@[j]),
        decreases connections@.len() - i,
    {
        if str_eq(connections[i].config.id.as_str(), form.id.as_str()) {
            proof {
                lemma_first_found(connections@, p, i as int);
            }
            let c = connections.remove(i);
            let updated = if refresh {
                ActiveConnection { config: form, schema: None, schema_loading: false, schema_error: None }
            } else {
                ActiveConnection { config: form, ..c }
            };
            connections.insert(i, updated);
            proof {
                assert(connections@ =~= old(connections)@.update(i as int, updated));
                assert(c == old(connections)@[i as int]);
                assert(first_where(old(connections)@, has_conn_id(form.id@)) == Some(i as int));
            }
            return true;
        }
        i += 1;
    }
    proof {
        lemma_first_none(connections@, p);
    }
    connections.push(ActiveConnection::new(form));
    false
}

/// A JSON value from a query result.
#[verifier::external_type_specification]
#[verifier::external_body]
pub struct ExJsonValue(serde_json::Value);

/// The rows of a list of chunks, one chunk after another.
pub open spec fn concat_chunks<T>(cs: Seq<Seq<T>>) -> Seq<T>
    decreases cs.len(),
{
    if cs.len() == 0 {
        Seq::empty()
    } else {
        concat_chunks(cs.drop_last()) + cs.last()
    }
}

/// Row `start + j` of the concatenation is row `j` of the chunk that starts
/// at `start`.
proof fn lemma_concat_index<T>(cs: Seq<Seq<T>>, c: int, j: int)
    requires
        0 <= c < cs.len(),
        0 <= j < cs[c].len(),
    ensures
        concat_chunks(cs.take(c)).len() + j < concat_chunks(cs).len(),
        concat_chunks(cs)[concat_chunks(cs.take(c)).len() + j] == cs[c][j],
    decreases cs.len(),
{
    if c == cs.len() - 1 {
        assert(cs.take(c) =~= cs.drop_last());
    } else {
        lemma_concat_index(cs.drop_last(), c, j);
        assert(cs.drop_last().take(c) =~= cs.take(c));
    }
}

/// Result rows as they stream in, kept in the chunks they arrived in.
pub struct Rows {
    chunks: Vec<Arc<Vec<Vec<serde_json::Value>>>>,
    starts: Vec<usize>,
    len: usize,
}

impl View for Rows {
    type V = Seq<Vec<serde_json::Value>>;

    /// Every row received, in order.
    closed spec fn view(&self) -> Seq<Vec<serde_json::Value>> {
        concat_chunks(self.chunk_views())
    }
}

impl Rows {
    spec fn chunk_views(&self) -> Seq<Seq<Vec<serde_json::Value>>> {
        self.chunks@.map_values(|c: Arc<Vec<Vec<serde_json::Value>>>| c@)
    }

    /// Each chunk holds rows and starts where the rows before it end.
    pub closed spec fn wf(&self) -> bool {
        let cs = self.chunk_views();
        &&& self.starts@.len() == cs.len()
        &&& forall|i: int| 0 <= i < cs.len() ==> #[trigger] cs[i].len() > 0
        &&& forall|i: int|
            0 <= i < cs.len() ==> #[trigger] self.starts@[i] == concat_chunks(cs.take(i)).len()
        &&& self.len == concat_chunks(cs).len()
    }

    /// No rows yet.
    pub fn new() -> (r: Self)
        ensures
            r.wf(),
            r@ == Seq::<Vec<serde_json::Value>>::empty(),
    {
        let r = Rows { chunks: Vec::new(), starts: Vec::new(), len: 0 };
        proof {
            assert(r.chunk_views() =~= Seq::<Seq<Vec<serde_json::Value>>>::empty());
        }
        r
    }

    /// Appends a chunk of rows; an empty chunk is not kept.
    pub fn push_chunk(&mut self, rows: Vec<Vec<serde_json::Value>>)
        requires
            old(self).wf(),
            old(self)@.len() + rows@.len() <= usize::MAX,
        ensures
            final(self).wf(),
            final(self)@ == old(self)@ + rows@,
    {
        if rows.len() == 0 {
            proof {
                assert(old(self)@ + rows@ =~= old(self)@);
            }
            return;
        }
        let ghost cs = self.chunk_views();
        let n = rows.len();
        self.starts.push(self.len);
        self.len = self.len + n;
        self.chunks.push(Arc::new(rows));
        proof {
            let now = self.chunk_views();
            assert(now =~= cs.push(rows@));
            assert(now.drop_last() =~= cs);
            assert(now.take(cs.len() as int) =~= cs);
            assert forall|i: int| 0 <= i < now.len() implies #[trigger] self.starts@[i]
                == concat_chunks(now.take(i)).len() by {
                if i < cs.len() {
                    assert(now.take(i) =~= cs.take(i));
                }
            }
        }
    }

    /// How many rows there are.
    pub fn len(&self) -> (r: usize)
        requires
            self.wf(),
        ensures
            r == self@.len(),
    {
        self.len
    }

    /// Whether there are no rows.
    pub fn is_empty(&self) -> (r: bool)
        requires
            self.wf(),
        ensures
            r == (self@.len() == 0),
    {
        self.len == 0
    }

    /// Row `index`, found through the chunk it fell in.
    pub fn get(&self, index: usize) -> (r: Option<&Vec<serde_json::Value>>)
        requires
            self.wf(),
        ensures
            index < self@.len() ==> r == Some(&self@[index as int]),
            index >= self@.len() ==> r is None,
    {
        if index >= self.len {
            return None;
        }
        let ghost cs = self.chunk_views();
        let n = self.starts.len();
        proof {
            if n == 0 {
                assert(cs =~= Seq::<Seq<Vec<serde_json::Value>>>::empty());
            }
            assert(cs.take(0) =~= Seq::<Seq<Vec<serde_json::Value>>>::empty());
        }
        let mut lo: usize = 0;
        let mut hi: usize = n;
        while hi - lo > 1
            invariant
                self.wf(),
                cs == self.chunk_views(),
                n == cs.len(),
                0 <= lo < hi <= n,
                self.starts@[lo as int] <= index,
                hi < n ==> index < self.starts@[hi as int],
                index < self.len,
            decreases hi - lo,
        {
            let mid = lo + (hi - lo) / 2;
            if self.starts[mid] <= index {
                lo = mid;
            } else {
                hi = mid;
            }
        }
        let c = lo;
        let j = index - self.starts[c];
        proof {
            if c + 1 < n {
                assert(cs.take(c + 1).drop_last() =~= cs.take(c as int));
                assert(cs.take(c + 1).last() == cs[c as int]);
            } else {
                assert(cs.take(c as int) =~= cs.drop_last());
            }
            assert(j < cs[c as int].len());
            lemma_concat_index(cs, c as int, j as int);
            assert(self.chunks@[c as int]@ == cs[c as int]);
        }
        let chunk: &Vec<Vec<serde_json::Value>> = &self.chunks[c];
        Some(&chunk[j])
    }
}

/// Rows read back after a chunk was appended: the rows from before keep their
/// places, and the chunk's rows follow them in order.
pub proof fn law_rows_append(before: Seq<Vec<serde_json::Value>>, chunk: Seq<Vec<serde_json::Value>>, i: int)
    requires
        0 <= i < before.len() + chunk.len(),
    ensures
        (before + chunk)[i] == if i < before.len() {
            before[i]
        } else {
            chunk[i - before.len()]
        },
{
}

impl Default for Rows {
    /// No rows yet.
    fn default() -> (r: Self)
        ensures
            r.wf(),
            r@ == Seq::<Vec<serde_json::Value>>::empty(),
    {
        Rows::new()
    }
}

/// A named group of connections in the sidebar.
#[derive(Clone, Debug, PartialEq)]
pub struct ServerGroup {
    pub id: String,
    pub title: String,
    pub connection_ids: Vec<String>,
}

/// What an editable result set is read from.
#[derive(Clone, Debug, PartialEq)]
pub struct EditInfo {
    pub table_name: String,
    pub schema_name: String,
    pub primary_key_cols: Vec<String>,
}

#[derive(Clone, Copy, PartialEq, Eq, Debug, Structural)]
pub enum SortDirection {
    Asc,
    Desc,
}

#[derive(Clone, Copy, PartialEq, Eq, Debug, Structural)]
pub enum OutputTab {
    Results,
    Messages,
    History,
    Saved,
}

impl OutputTab {
    /// The tabs of the output pane, in the order they are shown, with their labels.
    pub fn all() -> (r: [(OutputTab, &'static str); 4])
        ensures
            r@[0].0 == OutputTab::Results && r@[0].1@ == "Results"@,
            r@[1].0 == OutputTab::Messages && r@[1].1@ == "Messages"@,
            r@[2].0 == OutputTab::History && r@[2].1@ == "History"@,
            r@[3].0 == OutputTab::Saved && r@[3].1@ == "Saved"@,
    {
        [
            (OutputTab::Results, "Results"),
            (OutputTab::Messages, "Messages"),
            (OutputTab::History, "History"),
            (OutputTab::Saved, "Saved"),
        ]
    }
}

/// Pending cell edits: row index → [(column index, new text)] in insertion order.
pub type PendingEdits = Vec<(usize, Vec<(usize, String)>)>;

/// An entry of the pending edits for `row`.
pub open spec fn row_is(row: usize) -> spec_fn((usize, Vec<(usize, String)>)) -> bool {
    |e: (usize, Vec<(usize, String)>)| e.0 == row
}

/// A cell edit for column `col`.
pub open spec fn col_is(col: usize) -> spec_fn((usize, String)) -> bool {
    |c: (usize, String)| c.0 == col
}

/// The pending text for a cell: the first entry for `row`, and in it the
/// first entry for `col`.
pub open spec fn pending_spec(edits: Seq<(usize, Vec<(usize, String)>)>, row: usize, col: usize) -> Option<
    String,
> {
    match first_where(edits, row_is(row)) {
        Some(i) => match first_where(edits[i].1@, col_is(col)) {
            Some(j) => Some(edits[i].1@[j].1),
            None => None,
        },
        None => None,
    }
}

pub fn pending_get(edits: &PendingEdits, row: usize, col: usize) -> (r: Option<&String>)
    ensures
        match r {
            Some(s) => pending_spec(edits@, row, col) == Some(*s),
            None => pending_spec(edits@, row, col) is None,
        },
{
    let mut i: usize = 0;
    while i < edits.len()
        invariant
            i <= edits.len(),
            forall|k: int| 0 <= k < i ==> !row_is(row)(#[trigger] edits@[k]),
        decreases edits.len() - i,
    {
        if edits[i].0 == row {
            proof {
                lemma_first_found(edits@, row_is(row), i as int);
            }
            let cols = &edits[i].1;
            let mut j: usize = 0;
            while j < cols.len()
                invariant
                    j <= cols.len(),
                    cols == edits@[i as int].1,
                    first_where(edits@, row_is(row)) == Some(i as int),
                    forall|k: int| 0 <= k < j ==> !col_is(col)(#[trigger] cols@[k]),
                decreases cols.len() - j,
            {
                if cols[j].0 == col {
                    proof {
                        lemma_first_found(cols@, col_is(col), j as int);
                    }
                    return Some(&cols[j].1);
                }
                j += 1;
            }
            proof {
                lemma_first_none(cols@, col_is(col));
            }
            return None;
        }
        i += 1;
    }
    proof {
        lemma_first_none(edits@, row_is(row));
    }
    None
}

// ─── Sidebar structure ───────────────────────────────────────────────────────

/// The first connection with this id.
pub open spec fn conn_index(conns: Seq<ActiveConnection>, id: Seq<char>) -> Option<int> {
    first_where(conns, |c: ActiveConnection| c.config.id@ == id)
}

/// `id` occurs in the groups before position `k` of group `g`.
pub open spec fn seen_before(groups: Seq<ServerGroup>, g: int, k: int, id: Seq<char>) -> bool {
    exists|h: int, j: int|
        0 <= h <= g && 0 <= j < groups[h].connection_ids@.len() && (h < g || j < k)
            && #[trigger] groups[h].connection_ids@[j]@ == id
}

/// `id` occurs in some group.
pub open spec fn in_groups(groups: Seq<ServerGroup>, id: Seq<char>) -> bool {
    exists|h: int, j: int|
        0 <= h < groups.len() && 0 <= j < groups[h].connection_ids@.len()
            && #[trigger] groups[h].connection_ids@[j]@ == id
}

/// Where the connections shown under group `g` sit, from its first `k` ids:
/// each id that names a connection and has not been listed earlier, in any
/// group, shows the first connection with that id.
pub open spec fn member_positions(conns: Seq<ActiveConnection>, groups: Seq<ServerGroup>, g: int, k: int) -> Seq<
    int,
>
    decreases k,
{
    if k <= 0 {
        Seq::empty()
    } else {
        let prev = member_positions(conns, groups, g, k - 1);
        let id = groups[g].connection_ids@[k - 1]@;
        match conn_index(conns, id) {
            Some(i) => if seen_before(groups, g, k - 1, id) {
                prev
            } else {
                prev.push(i)
            },
            None => prev,
        }
    }
}

/// The connections shown under group `g`, from its first `k` ids.
pub open spec fn members(conns: Seq<ActiveConnection>, groups: Seq<ServerGroup>, g: int, k: int) -> Seq<
    ActiveConnection,
> {
    member_positions(conns, groups, g, k).map_values(|i: int| conns[i])
}

/// Where the first `n` connections that no group lists sit.
pub open spec fn ungrouped_positions(conns: Seq<ActiveConnection>, groups: Seq<ServerGroup>, n: int) -> Seq<
    int,
>
    decreases n,
{
    if n <= 0 {
        Seq::empty()
    } else {
        let prev = ungrouped_positions(conns, groups, n - 1);
        if in_groups(groups, conns[n - 1].config.id@) {
            prev
        } else {
            prev.push(n - 1)
        }
    }
}

/// The first `n` connections that no group lists, in their order.
pub open spec fn ungrouped_spec(conns: Seq<ActiveConnection>, groups: Seq<ServerGroup>, n: int) -> Seq<
    ActiveConnection,
> {
    ungrouped_positions(conns, groups, n).map_values(|i: int| conns[i])
}

pub open spec fn usize_ints(s: Seq<usize>) -> Seq<int> {
    s.map_values(|i: usize| i as int)
}

pub open spec fn deref_all(s: Seq<&ActiveConnection>) -> Seq<ActiveConnection> {
    s.map_values(|c: &ActiveConnection| *c)
}

/// The sidebar's layout: each group with its connections, then the rest.
pub struct DisplayStructure<'a> {
    pub groups: Vec<(&'a ServerGroup, Vec<&'a ActiveConnection>)>,
    pub ungrouped: Vec<&'a ActiveConnection>,
}

fn find_connection(conns: &[ActiveConnection], id: &String) -> (r: Option<usize>)
    ensures
        match r {
            Some(i) => conn_index(conns@, id@) == Some(i as int),
            None => conn_index(conns@, id@) is None,
        },
{
    let ghost p = |c: ActiveConnection| c.config.id@ == id@;
    let mut i: usize = 0;
    while i < conns.len()
        invariant
            i <= conns.len(),
            p == (|c: ActiveConnection| c.config.id@ == id@),
            forall|k: int| 0 <= k < i ==> !p(#[trigger] conns@[k]),
        decreases conns.len() - i,
    {
        if conns[i].config.id == *id {
            proof {
                lemma_first_found(conns@, p, i as int);
            }
            return Some(i);
        }
        i += 1;
    }
    proof {
        lemma_first_none(conns@, p);
    }
    None
}

fn seen_before_exec(groups: &[ServerGroup], g: usize, k: usize, id: &String) -> (r: bool)
    requires
        g < groups.len(),
        k <= groups@[g as int].connection_ids@.len(),
    ensures
        r == seen_before(groups@, g as int, k as int, id@),
{
    let mut h: usize = 0;
    while h <= g
        invariant
            g < groups.len(),
            k <= groups@[g as int].connection_ids@.len(),
            h <= g + 1,
            forall|hh: int, j: int|
                0 <= hh < h && 0 <= j < groups@[hh].connection_ids@.len() && (hh < g || j < k)
                    ==> #[trigger] groups@[hh].connection_ids@[j]@ != id@,
        decreases g + 1 - h,
    {
        let ids = &groups[h].connection_ids;
        let end = if h < g {
            ids.len()
        } else {
            k
        };
        let mut j: usize = 0;
        while j < end
            invariant
                h <= g < groups.len(),
                ids == groups@[h as int].connection_ids,
                end <= ids.len(),
                end == (if h < g { ids.len() } else { k }),
                j <= end,
                forall|jj: int| 0 <= jj < j ==> #[trigger] ids@[jj]@ != id@,
            decreases end - j,
        {
            if ids[j] == *id {
                assert(groups@[h as int].connection_ids@[j as int]@ == id@);
                return true;
            }
            j += 1;
        }
        h += 1;
    }
    false
}

fn in_groups_exec(groups: &[ServerGroup], id: &String) -> (r: bool)
    ensures
        r == in_groups(groups@, id@),
{
    let mut h: usize = 0;
    while h < groups.len()
        invariant
            h <= groups.len(),
            forall|hh: int, j: int|
                0 <= hh < h && 0 <= j < groups@[hh].connection_ids@.len()
                    ==> #[trigger] groups@[hh].connection_ids@[j]@ != id@,
        decreases groups.len() - h,
    {
        let ids = &groups[h].connection_ids;
        let mut j: usize = 0;
        while j < ids.len()
            invariant
                h < groups.len(),
                ids == groups@[h as int].connection_ids,
                j <= ids.len(),
                forall|jj: int| 0 <= jj < j ==> #[trigger] ids@[jj]@ != id@,
            decreases ids.len() - j,
        {
            if ids[j] == *id {
                assert(groups@[h as int].connection_ids@[j as int]@ == id@);
                return true;
            }
            j += 1;
        }
        h += 1;
    }
    false
}

/// The sidebar's layout as positions in `connections`: each group's
/// members, then the connections no group names.
pub(crate) fn display_positions(connections: &[ActiveConnection], groups: &[ServerGroup]) -> (r: (
    Vec<Vec<usize>>,
    Vec<usize>,
))
    ensures
        r.0.len() == groups.len(),
        forall|g: int|
            0 <= g < groups.len() ==> usize_ints((#[trigger] r.0@[g])@) == member_positions(
                connections@,
                groups@,
                g,
                groups@[g].connection_ids@.len() as int,
            ),
        usize_ints(r.1@) == ungrouped_positions(connections@, groups@, connections@.len() as int),
        forall|g: int, k: int|
            0 <= g < groups.len() && 0 <= k < r.0@[g]@.len() ==> #[trigger] r.0@[g]@[k]
                < connections@.len(),
        forall|k: int| 0 <= k < r.1@.len() ==> #[trigger] r.1@[k] < connections@.len(),
{
    let mut groups_out: Vec<Vec<usize>> = Vec::new();
    let mut gi: usize = 0;
    while gi < groups.len()
        invariant
            gi <= groups.len(),
            groups_out.len() == gi,
            forall|g: int|
                0 <= g < gi ==> usize_ints((#[trigger] groups_out@[g])@) == member_positions(
                    connections@,
                    groups@,
                    g,
                    groups@[g].connection_ids@.len() as int,
                ),
            forall|g: int, k: int|
                0 <= g < gi && 0 <= k < groups_out@[g]@.len() ==> #[trigger] groups_out@[g]@[k]
                    < connections@.len(),
        decreases groups.len() - gi,
    {
        let grp: &ServerGroup = &groups[gi];
        let mut positions: Vec<usize> = Vec::new();
        let mut k: usize = 0;
        while k < grp.connection_ids.len()
            invariant
                gi < groups.len(),
                *grp == groups@[gi as int],
                k <= grp.connection_ids.len(),
                usize_ints(positions@) == member_positions(connections@, groups@, gi as int, k as int),
                forall|x: int| 0 <= x < positions@.len() ==> #[trigger] positions@[x] < connections@.len(),
            decreases grp.connection_ids.len() - k,
        {
            let id = &grp.connection_ids[k];
            match find_connection(connections, id) {
                Some(i) => {
                    if !seen_before_exec(groups, gi, k, id) {
                        positions.push(i);
                    }
                },
                None => {},
            }
            proof {
                assert(usize_ints(positions@) =~= member_positions(
                    connections@,
                    groups@,
                    gi as int,
                    k + 1,
                ));
            }
            k += 1;
        }
        groups_out.push(positions);
        gi += 1;
    }
    let mut ungrouped: Vec<usize> = Vec::new();
    let mut i: usize = 0;
    while i < connections.len()
        invariant
            i <= connections.len(),
            usize_ints(ungrouped@) == ungrouped_positions(connections@, groups@, i as int),
            forall|x: int| 0 <= x < ungrouped@.len() ==> #[trigger] ungrouped@[x] < i,
        decreases connections.len() - i,
    {
        if !in_groups_exec(groups, &connections[i].config.id) {
            ungrouped.push(i);
        }
        proof {
            assert(usize_ints(ungrouped@) =~= ungrouped_positions(connections@, groups@, i + 1));
        }
        i += 1;
    }
    (groups_out, ungrouped)
}

fn refs_at<'a>(connections: &'a [ActiveConnection], positions: &Vec<usize>) -> (r: Vec<
    &'a ActiveConnection,
>)
    requires
        forall|k: int| 0 <= k < positions@.len() ==> #[trigger] positions@[k] < connections@.len(),
    ensures
        deref_all(r@) == usize_ints(positions@).map_values(|i: int| connections@[i]),
{
    let mut r: Vec<&'a ActiveConnection> = Vec::new();
    let mut k: usize = 0;
    while k < positions.len()
        invariant
            k <= positions@.len(),
            forall|x: int| 0 <= x < positions@.len() ==> #[trigger] positions@[x] < connections@.len(),
            deref_all(r@) == usize_ints(positions@.take(k as int)).map_values(
                |i: int| connections@[i],
            ),
        decreases positions@.len() - k,
    {
        let ghost before = r@;
        let p = positions[k];
        r.push(&connections[p]);
        proof {
            assert(deref_all(r@) =~= deref_all(before).push(connections@[p as int]));
            assert(positions@.take(k + 1) =~= positions@.take(k as int).push(positions@[k as int]));
            assert(usize_ints(positions@.take(k + 1)) =~= usize_ints(positions@.take(k as int)).push(
                p as int,
            ));
            assert(deref_all(r@) =~= usize_ints(positions@.take(k + 1)).map_values(
                |i: int| connections@[i],
            ));
        }
        k += 1;
    }
    proof {
        assert(positions@.take(positions@.len() as int) =~= positions@);
    }
    r
}

/// Groups in order, each with the connections it lists (a connection is
/// listed once, under the first group that names it), then the connections
/// no group names.
pub fn display_structure<'a>(connections: &'a [ActiveConnection], groups: &'a [ServerGroup]) -> (r:
    DisplayStructure<'a>)
    ensures
        r.groups.len() == groups.len(),
        forall|g: int|
            0 <= g < groups.len() ==> *(#[trigger] r.groups@[g]).0 == groups@[g] && deref_all(
                r.groups@[g].1@,
            ) == members(connections@, groups@, g, groups@[g].connection_ids@.len() as int),
        deref_all(r.ungrouped@) == ungrouped_spec(connections@, groups@, connections@.len() as int),
{
    let (positions, rest) = display_positions(connections, groups);
    let mut groups_out: Vec<(&'a ServerGroup, Vec<&'a ActiveConnection>)> = Vec::new();
    let mut gi: usize = 0;
    while gi < groups.len()
        invariant
            gi <= groups.len(),
            positions.len() == groups.len(),
            forall|g: int|
                0 <= g < groups.len() ==> usize_ints((#[trigger] positions@[g])@) == member_positions(
                    connections@,
                    groups@,
                    g,
                    groups@[g].connection_ids@.len() as int,
                ),
            forall|g: int, k: int|
                0 <= g < groups.len() && 0 <= k < positions@[g]@.len() ==> #[trigger] positions@[g]@[k]
                    < connections@.len(),
            groups_out.len() == gi,
            forall|g: int|
                0 <= g < gi ==> *(#[trigger] groups_out@[g]).0 == groups@[g] && deref_all(
                    groups_out@[g].1@,
                ) == members(connections@, groups@, g, groups@[g].connection_ids@.len() as int),
        decreases groups.len() - gi,
    {
        let conns = refs_at(connections, &positions[gi]);
        groups_out.push((&groups[gi], conns));
        gi += 1;
    }
    let ungrouped = refs_at(connections, &rest);
    DisplayStructure { groups: groups_out, ungrouped }
}

/// The label of a grouped connection: the group's title, " - ", the name.
pub open spec fn grouped_label(title: Seq<char>, c: ActiveConnection) -> (Seq<char>, Seq<char>) {
    (c.config.id@, title + seq![' ', '-', ' '] + c.config.name@)
}

/// The options for the first `n` groups.
pub open spec fn group_options(conns: Seq<ActiveConnection>, groups: Seq<ServerGroup>, n: int) -> Seq<
    (Seq<char>, Seq<char>),
>
    decreases n,
{
    if n <= 0 {
        Seq::empty()
    } else {
        group_options(conns, groups, n - 1) + members(
            conns,
            groups,
            n - 1,
            groups[n - 1].connection_ids@.len() as int,
        ).map_values(|c: ActiveConnection| grouped_label(groups[n - 1].title@, c))
    }
}

/// Every connection as (id, label), in sidebar order.
pub open spec fn connection_options(conns: Seq<ActiveConnection>, groups: Seq<ServerGroup>) -> Seq<
    (Seq<char>, Seq<char>),
> {
    group_options(conns, groups, groups.len() as int) + ungrouped_spec(
        conns,
        groups,
        conns.len() as int,
    ).map_values(|c: ActiveConnection| (c.config.id@, c.config.name@))
}

pub open spec fn option_views(s: Seq<(String, String)>) -> Seq<(Seq<char>, Seq<char>)> {
    s.map_values(|p: (String, String)| (p.0@, p.1@))
}

/// The connection picker's entries: (id, label) in sidebar order, where a
/// grouped connection is labelled "title - name".
pub fn ordered_connection_options(connections: &[ActiveConnection], groups: &[ServerGroup]) -> (r: Vec<
    (String, String),
>)
    ensures
        option_views(r@) == connection_options(connections@, groups@),
{
    let s = display_structure(connections, groups);
    let mut out: Vec<(String, String)> = Vec::new();
    let mut gi: usize = 0;
    while gi < s.groups.len()
        invariant
            gi <= s.groups.len(),
            s.groups.len() == groups.len(),
            forall|g: int|
                0 <= g < groups.len() ==> *(#[trigger] s.groups@[g]).0 == groups@[g] && deref_all(
                    s.groups@[g].1@,
                ) == members(connections@, groups@, g, groups@[g].connection_ids@.len() as int),
            option_views(out@) == group_options(connections@, groups@, gi as int),
        decreases s.groups.len() - gi,
    {
        let grp: &ServerGroup = s.groups[gi].0;
        let members_of: &Vec<&ActiveConnection> = &s.groups[gi].1;
        let ghost before = option_views(out@);
        let ghost ms = members(
            connections@,
            groups@,
            gi as int,
            groups@[gi as int].connection_ids@.len() as int,
        );
        let mut k: usize = 0;
        while k < members_of.len()
            invariant
                gi < groups.len(),
                *grp == groups@[gi as int],
                deref_all(members_of@) == ms,
                k <= members_of.len(),
                option_views(out@) == before + ms.take(k as int).map_values(
                    |c: ActiveConnection| grouped_label(groups@[gi as int].title@, c),
                ),
            decreases members_of.len() - k,
        {
            let c: &ActiveConnection = members_of[k];
            assert(*c == ms[k as int]);
            let mut label = grp.title.clone();
            label.append(" - ");
            label.append(c.config.name.as_str());
            proof {
                reveal_strlit(" - ");
            }
            let ghost old_out = out@;
            let id = c.config.id.clone();
            out.push((id, label));
            proof {
                assert(option_views(out@) =~= option_views(old_out).push((id@, label@)));
                assert((id@, label@) == grouped_label(groups@[gi as int].title@, ms[k as int]));
                assert(ms.take(k + 1) == ms.take(k as int).push(ms[k as int]));
                assert(option_views(out@) =~= before + ms.take(k + 1).map_values(
                    |c: ActiveConnection| grouped_label(groups@[gi as int].title@, c),
                ));
            }
            k += 1;
        }
        proof {
            assert(ms.take(members_of.len() as int) == ms);
        }
        gi += 1;
    }
    let ghost before = option_views(out@);
    let ghost us = ungrouped_spec(connections@, groups@, connections@.len() as int);
    let mut k: usize = 0;
    while k < s.ungrouped.len()
        invariant
            deref_all(s.ungrouped@) == us,
            k <= s.ungrouped.len(),
            option_views(out@) == before + us.take(k as int).map_values(
                |c: ActiveConnection| (c.config.id@, c.config.name@),
            ),
        decreases s.ungrouped.len() - k,
    {
        let c: &ActiveConnection = s.ungrouped[k];
        assert(*c == us[k as int]);
        let ghost old_out = out@;
        let id = c.config.id.clone();
        let name = c.config.name.clone();
        out.push((id, name));
        proof {
            assert(option_views(out@) =~= option_views(old_out).push((id@, name@)));
            assert(us.take(k + 1) == us.take(k as int).push(us[k as int]));
            assert(option_views(out@) =~= before + us.take(k + 1).map_values(
                |c: ActiveConnection| (c.config.id@, c.config.name@),
            ));
        }
        k += 1;
    }
    proof {
        assert(us.take(s.ungrouped.len() as int) == us);
    }
    out
}

// ─── Saved connection order ──────────────────────────────────────────────────

/// Where `id` first occurs in the saved order.
pub open spec fn rank(order: Seq<String>, id: Seq<char>) -> Option<int> {
    first_where(order, |o: String| o@ == id)
}

/// The first `n` connections whose rank is `r`, in their order.
pub open spec fn with_rank(conns: Seq<ActiveConnection>, order: Seq<String>, r: Option<int>, n: int) -> Seq<
    ActiveConnection,
>
    decreases n,
{
    if n <= 0 {
        Seq::empty()
    } else {
        let prev = with_rank(conns, order, r, n - 1);
        if rank(order, conns[n - 1].config.id@) == r {
            prev.push(conns[n - 1])
        } else {
            prev
        }
    }
}

/// The connections of ranks `0..p`, rank by rank.
pub open spec fn ranked(conns: Seq<ActiveConnection>, order: Seq<String>, p: int) -> Seq<ActiveConnection>
    decreases p,
{
    if p <= 0 {
        Seq::empty()
    } else {
        ranked(conns, order, p - 1) + with_rank(conns, order, Some(p - 1), conns.len() as int)
    }
}

/// The connections sorted, stably, by where their id first occurs in
/// `order`; those whose id does not occur come last.
pub open spec fn ordered_connections(conns: Seq<ActiveConnection>, order: Seq<String>) -> Seq<
    ActiveConnection,
> {
    ranked(conns, order, order.len() as int) + with_rank(conns, order, None, conns.len() as int)
}

proof fn lemma_unranked_when_no_order(conns: Seq<ActiveConnection>, order: Seq<String>, n: int)
    requires
        order.len() == 0,
        0 <= n <= conns.len(),
    ensures
        with_rank(conns, order, None, n) == conns.take(n),
    decreases n,
{
    if n > 0 {
        lemma_unranked_when_no_order(conns, order, n - 1);
        lemma_first_none(order, |o: String| o@ == conns[n - 1].config.id@);
        assert(conns.take(n) == conns.take(n - 1).push(conns[n - 1]));
    }
}

fn rank_of(order: &[String], id: &String) -> (r: Option<usize>)
    ensures
        match r {
            Some(i) => rank(order@, id@) == Some(i as int),
            None => rank(order@, id@) is None,
        },
{
    let ghost p = |o: String| o@ == id@;
    let mut i: usize = 0;
    while i < order.len()
        invariant
            i <= order.len(),
            p == (|o: String| o@ == id@),
            forall|k: int| 0 <= k < i ==> !p(#[trigger] order@[k]),
        decreases order.len() - i,
    {
        if order[i] == *id {
            proof {
                lemma_first_found(order@, p, i as int);
            }
            return Some(i);
        }
        i += 1;
    }
    proof {
        lemma_first_none(order@, p);
    }
    None
}

/// Sorts the connections by the saved order, keeping the relative order of
/// connections of equal rank; connections the order does not name go last.
pub fn apply_connection_order(connections: Vec<ActiveConnection>, order: &[String]) -> (r: Vec<
    ActiveConnection,
>)
    ensures
        r@ == ordered_connections(connections@, order@),
{
    let ghost conns = connections@;
    if order.len() == 0 {
        proof {
            lemma_unranked_when_no_order(conns, order@, conns.len() as int);
            assert(conns.take(conns.len() as int) == conns);
        }
        return connections;
    }
    let mut connections = connections;
    let n = connections.len();
    let mut ranks: Vec<Option<usize>> = Vec::new();
    let mut slots: Vec<Option<ActiveConnection>> = Vec::new();
    let mut i: usize = 0;
    while i < n
        invariant
            n == conns.len(),
            i <= n,
            connections@ == conns.skip(i as int),
            ranks.len() == i,
            slots.len() == i,
            forall|j: int| 0 <= j < i ==> #[trigger] slots@[j] == Some(conns[j]),
            forall|j: int|
                0 <= j < i ==> match #[trigger] ranks@[j] {
                    Some(q) => rank(order@, conns[j].config.id@) == Some(q as int),
                    None => rank(order@, conns[j].config.id@) is None,
                },
        decreases n - i,
    {
        let c = connections.remove(0);
        assert(c == conns[i as int]);
        ranks.push(rank_of(order, &c.config.id));
        slots.push(Some(c));
        proof {
            assert(conns.skip(i + 1) =~= conns.skip(i as int).drop_first());
        }
        i += 1;
    }
    let mut out: Vec<ActiveConnection> = Vec::new();
    let mut p: usize = 0;
    while p < order.len()
        invariant
            n == conns.len(),
            ranks.len() == n,
            slots.len() == n,
            p <= order.len(),
            out@ == ranked(conns, order@, p as int),
            forall|j: int|
                0 <= j < n ==> match #[trigger] ranks@[j] {
                    Some(q) => rank(order@, conns[j].config.id@) == Some(q as int),
                    None => rank(order@, conns[j].config.id@) is None,
                },
            forall|j: int|
                0 <= j < n ==> #[trigger] slots@[j] == (match ranks@[j] {
                    Some(q) => if q < p {
                        None
                    } else {
                        Some(conns[j])
                    },
                    None => Some(conns[j]),
                }),
        decreases order.len() - p,
    {
        let ghost before = out@;
        let mut j: usize = 0;
        while j < n
            invariant
                n == conns.len(),
                ranks.len() == n,
                slots.len() == n,
                p < order.len(),
                j <= n,
                out@ == before + with_rank(conns, order@, Some(p as int), j as int),
                forall|k: int|
                    0 <= k < n ==> match #[trigger] ranks@[k] {
                        Some(q) => rank(order@, conns[k].config.id@) == Some(q as int),
                        None => rank(order@, conns[k].config.id@) is None,
                    },
                forall|k: int|
                    0 <= k < n ==> #[trigger] slots@[k] == (match ranks@[k] {
                        Some(q) => if q < p || (q == p && k < j) {
                            None
                        } else {
                            Some(conns[k])
                        },
                        None => Some(conns[k]),
                    }),
            decreases n - j,
        {
            let hit = match ranks[j] {
                Some(q) => q == p,
                None => false,
            };
            if hit {
                let mut taken: Option<ActiveConnection> = None;
                slots.set_and_swap(j, &mut taken);
                match taken {
                    Some(c) => {
                        out.push(c);
                    },
                    None => {},
                }
            }
            proof {
                assert(out@ =~= before + with_rank(conns, order@, Some(p as int), j + 1));
            }
            j += 1;
        }
        proof {
            assert(out@ =~= ranked(conns, order@, p + 1));
        }
        p += 1;
    }
    let ghost before = out@;
    let mut j: usize = 0;
    while j < n
        invariant
            n == conns.len(),
            ranks.len() == n,
            slots.len() == n,
            j <= n,
            out@ == before + with_rank(conns, order@, None, j as int),
            forall|k: int|
                0 <= k < n ==> match #[trigger] ranks@[k] {
                    Some(q) => rank(order@, conns[k].config.id@) == Some(q as int),
                    None => rank(order@, conns[k].config.id@) is None,
                },
            forall|k: int|
                0 <= k < n ==> #[trigger] slots@[k] == (match ranks@[k] {
                    Some(q) => None,
                    None => if k < j {
                        None
                    } else {
                        Some(conns[k])
                    },
                }),
        decreases n - j,
    {
        if ranks[j].is_none() {
            let mut taken: Option<ActiveConnection> = None;
            slots.set_and_swap(j, &mut taken);
            match taken {
                Some(c) => {
                    out.push(c);
                },
                None => {},
            }
        }
        proof {
            assert(out@ =~= before + with_rank(conns, order@, None, j + 1));
        }
        j += 1;
    }
    out
}

// ─── Byte sizes ──────────────────────────────────────────────────────────────

/// The spacing of doubles at `b`: 1 below 2^53, then doubling at each power
/// of two (up to 2^64).
pub open spec fn double_spacing(b: nat) -> nat {
    if b < 0x20_0000_0000_0000 {
        1
    } else if b < 0x40_0000_0000_0000 {
        2
    } else if b < 0x80_0000_0000_0000 {
        4
    } else if b < 0x100_0000_0000_0000 {
        8
    } else if b < 0x200_0000_0000_0000 {
        16
    } else if b < 0x400_0000_0000_0000 {
        32
    } else if b < 0x800_0000_0000_0000 {
        64
    } else if b < 0x1000_0000_0000_0000 {
        128
    } else if b < 0x2000_0000_0000_0000 {
        256
    } else if b < 0x4000_0000_0000_0000 {
        512
    } else if b < 0x8000_0000_0000_0000 {
        1024
    } else {
        2048
    }
}

/// The double nearest to `b` (ties to the even significand): the number a
/// byte count becomes once it is a JavaScript number.
pub open spec fn as_double(b: nat) -> nat {
    let u = double_spacing(b);
    let q = b / u;
    let rem = b % u;
    if rem * 2 > u || (rem * 2 == u && q % 2 == 1) {
        (q + 1) * u
    } else {
        q * u
    }
}

/// 1024 to the power `k`, for the units B to PB.
pub open spec fn unit_size(k: nat) -> nat {
    if k == 0 {
        1
    } else if k == 1 {
        0x400
    } else if k == 2 {
        0x10_0000
    } else if k == 3 {
        0x4000_0000
    } else if k == 4 {
        0x100_0000_0000
    } else {
        0x4_0000_0000_0000
    }
}

/// The largest unit (at most PB) in which `d` is at least 1.
pub open spec fn unit_index(d: nat) -> nat {
    if d >= unit_size(5) {
        5
    } else if d >= unit_size(4) {
        4
    } else if d >= unit_size(3) {
        3
    } else if d >= unit_size(2) {
        2
    } else if d >= unit_size(1) {
        1
    } else {
        0
    }
}

pub open spec fn unit_name(k: nat) -> Seq<char> {
    if k == 0 {
        seq!['B']
    } else if k == 1 {
        seq!['K', 'B']
    } else if k == 2 {
        seq!['M', 'B']
    } else if k == 3 {
        seq!['G', 'B']
    } else if k == 4 {
        seq!['T', 'B']
    } else {
        seq!['P', 'B']
    }
}

pub open spec fn digit_char(d: nat) -> char {
    (d + 48) as char
}

/// `n` in decimal.
pub open spec fn decimal(n: nat) -> Seq<char>
    decreases n,
{
    if n < 10 {
        seq![digit_char(n)]
    } else {
        decimal(n / 10).push(digit_char(n % 10))
    }
}

/// How `d` bytes read: in the largest unit it reaches, with one decimal
/// below 10 of a unit above bytes, rounded half up as `toFixed` does.
pub open spec fn size_text(d: nat) -> Seq<char> {
    let k = unit_index(d);
    let u = unit_size(k);
    let one_decimal = k > 0 && d < 10 * u;
    let scaled = if one_decimal {
        d * 10
    } else {
        d
    };
    let n = (scaled + u / 2) / u;
    let number = if one_decimal {
        decimal(n / 10) + seq!['.', digit_char(n % 10)]
    } else {
        decimal(n)
    };
    number + seq![' '] + unit_name(k)
}

pub open spec fn format_bytes_spec(bytes: Option<i64>) -> Seq<char> {
    match bytes {
        Some(b) => if b > 0 {
            size_text(as_double(b as nat))
        } else {
            Seq::empty()
        },
        None => Seq::empty(),
    }
}

/// `t` ends with `u`.
pub open spec fn ends_with(t: Seq<char>, u: Seq<char>) -> bool {
    t.len() >= u.len() && t.subrange(t.len() - u.len(), t.len() as int) == u
}

proof fn lemma_size_text_unit(d: nat)
    ensures
        ends_with(size_text(d), seq![' '] + unit_name(unit_index(d))),
{
    let k = unit_index(d);
    let u = unit_size(k);
    let one_decimal = k > 0 && d < 10 * u;
    let scaled = if one_decimal {
        d * 10
    } else {
        d
    };
    let n = (scaled + u / 2) / u;
    let number = if one_decimal {
        decimal(n / 10) + seq!['.', digit_char(n % 10)]
    } else {
        decimal(n)
    };
    let tail = seq![' '] + unit_name(k);
    assert(size_text(d) =~= number + tail);
    assert((number + tail).subrange(number.len() as int, (number + tail).len() as int) =~= tail);
}

proof fn lemma_double_of_small(b: nat)
    requires
        b < 0x20_0000_0000_0000,
    ensures
        as_double(b) == b,
{
    assert(b / 1 == b && b % 1 == 0) by (nonlinear_arith);
}

proof fn lemma_double_of_large(b: nat)
    requires
        0x20_0000_0000_0000 <= b,
    ensures
        as_double(b) >= 0x4_0000_0000_0000,
{
    let u = double_spacing(b);
    assert(1 <= u <= 2048);
    vstd::arithmetic::div_mod::lemma_fundamental_div_mod(b as int, u as int);
    vstd::arithmetic::div_mod::lemma_mod_pos_bound(b as int, u as int);
    let q = b / u;
    assert(b as int == u * q + b % u);
    assert(q * u >= b - u) by (nonlinear_arith)
        requires
            b as int == u * q + b % u,
            b % u < u,
            u >= 1,
    ;
    assert((q + 1) * u >= q * u) by (nonlinear_arith)
        requires
            u >= 1,
    ;
}

/// A positive byte count reads in the largest unit it reaches, each unit
/// 1024 times the one before: B below 1024, then KB, MB, GB, TB, and PB from
/// 1024^5 on; the text ends with a space and that unit.
pub proof fn law_size_unit(b: i64)
    requires
        b > 0,
    ensures
        b < 0x400 ==> ends_with(format_bytes_spec(Some(b)), seq![' ', 'B']),
        0x400 <= b < 0x10_0000 ==> ends_with(format_bytes_spec(Some(b)), seq![' ', 'K', 'B']),
        0x10_0000 <= b < 0x4000_0000 ==> ends_with(format_bytes_spec(Some(b)), seq![' ', 'M', 'B']),
        0x4000_0000 <= b < 0x100_0000_0000 ==> ends_with(format_bytes_spec(Some(b)), seq![' ', 'G', 'B']),
        0x100_0000_0000 <= b < 0x4_0000_0000_0000 ==> ends_with(
            format_bytes_spec(Some(b)),
            seq![' ', 'T', 'B'],
        ),
        0x4_0000_0000_0000 <= b ==> ends_with(format_bytes_spec(Some(b)), seq![' ', 'P', 'B']),
{
    let d = as_double(b as nat);
    if b < 0x20_0000_0000_0000 {
        lemma_double_of_small(b as nat);
    } else {
        lemma_double_of_large(b as nat);
    }
    lemma_size_text_unit(d);
    let k = unit_index(d);
    assert(seq![' '] + unit_name(k) =~= if k == 0 {
        seq![' ', 'B']
    } else if k == 1 {
        seq![' ', 'K', 'B']
    } else if k == 2 {
        seq![' ', 'M', 'B']
    } else if k == 3 {
        seq![' ', 'G', 'B']
    } else if k == 4 {
        seq![' ', 'T', 'B']
    } else {
        seq![' ', 'P', 'B']
    });
}

/// A whole number of KB, MB, GB or TB below ten of them reads as that
/// number with one decimal `.0`: `m` times 1024^k bytes starts `m.0 `.
pub proof fn law_whole_units(b: i64, m: int)
    requires
        1 <= m <= 9,
        b == m * 0x400 || b == m * 0x10_0000 || b == m * 0x4000_0000 || b == m * 0x100_0000_0000,
    ensures
        format_bytes_spec(Some(b)).len() > 4,
        format_bytes_spec(Some(b)).take(4) == seq![(m + 48) as char, '.', '0', ' '],
{
    let d = b as nat;
    lemma_double_of_small(d);
    let k = unit_index(d);
    let u = unit_size(k);
    assert(b == m * u);
    assert(k > 0 && d < 10 * u);
    let x = u / 2;
    vstd::arithmetic::div_mod::lemma_basic_div(x as int, u as int);
    vstd::arithmetic::div_mod::lemma_hoist_over_denominator(x as int, 10 * m, u);
    assert(10 * m * (u as int) == (d * 10) as int) by (nonlinear_arith)
        requires
            d == m * u,
    ;
    assert((10 * m) * (u as int) == 10 * m * (u as int)) by (nonlinear_arith);
    let n = (d * 10 + u / 2) / u;
    assert(n == 10 * m);
    assert(n / 10 == m && n % 10 == 0);
    assert(decimal(m as nat) == seq![digit_char(m as nat)]);
    assert(digit_char(0) == '0');
    let t = format_bytes_spec(Some(b));
    assert(t =~= seq![digit_char(m as nat), '.', digit_char(0)] + seq![' '] + unit_name(k));
    assert(t.take(4) =~= seq![(m + 48) as char, '.', '0', ' ']);
}

pub(crate) fn digit(d: u128) -> (c: char)
    requires
        d < 10,
    ensures
        c == digit_char(d as nat),
{
    let b: u8 = (d as u8) + 48;
    b as char
}

pub(crate) fn decimal_string(n: u128) -> (r: String)
    ensures
        r@ == decimal(n as nat),
    decreases n,
{
    if n < 10 {
        let mut s = String::new();
        push_char(&mut s, digit(n));
        s
    } else {
        let mut s = decimal_string(n / 10);
        push_char(&mut s, digit(n % 10));
        s
    }
}

fn unit_label(k: usize) -> (r: &'static str)
    requires
        k <= 5,
    ensures
        r@ == unit_name(k as nat),
{
    proof {
        reveal_strlit("B");
        reveal_strlit("KB");
        reveal_strlit("MB");
        reveal_strlit("GB");
        reveal_strlit("TB");
        reveal_strlit("PB");
    }
    if k == 0 {
        "B"
    } else if k == 1 {
        "KB"
    } else if k == 2 {
        "MB"
    } else if k == 3 {
        "GB"
    } else if k == 4 {
        "TB"
    } else {
        "PB"
    }
}

fn to_double(b: u64) -> (d: u128)
    ensures
        d == as_double(b as nat),
        d <= 0x1_0000_0000_0000_0000,
{
    let u: u64 = if b < 0x20_0000_0000_0000 {
        1
    } else if b < 0x40_0000_0000_0000 {
        2
    } else if b < 0x80_0000_0000_0000 {
        4
    } else if b < 0x100_0000_0000_0000 {
        8
    } else if b < 0x200_0000_0000_0000 {
        16
    } else if b < 0x400_0000_0000_0000 {
        32
    } else if b < 0x800_0000_0000_0000 {
        64
    } else if b < 0x1000_0000_0000_0000 {
        128
    } else if b < 0x2000_0000_0000_0000 {
        256
    } else if b < 0x4000_0000_0000_0000 {
        512
    } else if b < 0x8000_0000_0000_0000 {
        1024
    } else {
        2048
    };
    let q = b / u;
    let rem = b % u;
    assert((q + 1) * u <= b + u) by (nonlinear_arith)
        requires
            q == b / u,
            u >= 1,
    {
    }
    let q2: u128 = if rem * 2 > u || (rem * 2 == u && q % 2 == 1) {
        q as u128 + 1
    } else {
        q as u128
    };
    assert(q2 * u <= b + u) by (nonlinear_arith)
        requires
            q2 <= q + 1,
            (q + 1) * u <= b + u,
            u >= 1,
    {
    }
    q2 * (u as u128)
}

/// A byte count as the sidebar shows it ("512 B", "1.5 KB", "240 KB"); an
/// absent or non-positive count shows nothing.
pub fn format_bytes(bytes: Option<i64>) -> (r: String)
    ensures
        r@ == format_bytes_spec(bytes),
{
    let b: u64 = match bytes {
        Some(b) => if b > 0 {
            b as u64
        } else {
            return String::new();
        },
        None => {
            return String::new();
        },
    };
    let d: u128 = to_double(b);
    let k: usize = if d >= 0x4_0000_0000_0000 {
        5
    } else if d >= 0x100_0000_0000 {
        4
    } else if d >= 0x4000_0000 {
        3
    } else if d >= 0x10_0000 {
        2
    } else if d >= 0x400 {
        1
    } else {
        0
    };
    let u: u128 = if k == 0 {
        1
    } else if k == 1 {
        0x400
    } else if k == 2 {
        0x10_0000
    } else if k == 3 {
        0x4000_0000
    } else if k == 4 {
        0x100_0000_0000
    } else {
        0x4_0000_0000_0000
    };
    assert(k == unit_index(d as nat) && u == unit_size(k as nat));
    let one_decimal = k > 0 && d / 10 < u;
    assert(one_decimal == (k > 0 && d < 10 * u));
    let scaled: u128 = if one_decimal {
        d * 10
    } else {
        d
    };
    let n = (scaled + u / 2) / u;
    let mut s = if one_decimal {
        let mut s = decimal_string(n / 10);
        push_char(&mut s, '.');
        push_char(&mut s, digit(n % 10));
        s
    } else {
        decimal_string(n)
    };
    push_char(&mut s, ' ');
    s.append(unit_label(k));
    s
}

} // verus!
