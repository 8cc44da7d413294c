//! Where tiles are downloaded from, and what became of a download.
use crate::ids::{tile_file, tile_path};
use crate::options::{DownloadOptions, law_selection_order, options_tiles, selection_ready};
use crate::polygon::TileProbe;
use crate::text::{
    decimal, decimal_text, lemma_decimal_value, push_decimal, replace_text, replaced,
};
use crate::tile::{Tile, TileBounds};
use vstd::prelude::*;
use vstd::string::StringExecFns;

verus! {

/// The names that requests give of the program that makes them.
pub open spec fn user_agents() -> Seq<Seq<char>> {
    seq![
        "Mozilla/5.0 (Macintosh; Intel Mac OS X 10_15_7) AppleWebKit/537.36 (KHTML, like Gecko) Chrome/143.0.0.0 Safari/537.36"@,
        "Mozilla/5.0 (Macintosh; Intel Mac OS X 10_15_7) AppleWebKit/605.1.15 (KHTML, like Gecko) Version/18.5 Safari/605.1.15"@,
        "Mozilla/5.0 (Windows NT 10.0; Win64; x64) AppleWebKit/537.36 (KHTML, like Gecko) Chrome/143.0.0.0 Safari/537.36"@,
        "Mozilla/5.0 (Windows NT 10.0; Win64; x64; rv:140.0) Gecko/20100101 Firefox/140.0"@,
        "Mozilla/5.0 (X11; Linux x86_64) AppleWebKit/537.36 (KHTML, like Gecko) Chrome/143.0.0.0 Safari/537.36"@,
    ]
}

/// `rand::seq::IndexedRandom::choose` with the generator `rand::rng()`: one of the texts, by
/// chance, or none where there are none.
#[verifier::external_body]
fn choose_text<'a>(texts: &[&'a str]) -> (chosen: Option<&'a str>)
    ensures
        chosen is None <==> texts@.len() == 0,
        chosen matches Some(text) ==> exists|i: int|
            0 <= i < texts@.len() && (#[trigger] texts@[i])@ == text@,
{
    rand::prelude::IndexedRandom::choose(texts, &mut rand::rng()).copied()
}

/// The name that a request gives: the one that was chosen, or else the first.
pub fn agent_or_first<'a>(chosen: Option<&'a str>, agents: &[&'a str]) -> (agent: &'a str)
    requires
        agents@.len() > 0,
    ensures
        agent@ == (match chosen {
            Some(text) => text@,
            None => agents@[0]@,
        }),
{
    match chosen {
        Some(text) => text,
        None => agents[0],
    }
}

/// The name that a request gives of the program that makes it, chosen by chance.
pub fn random_ua() -> (agent: &'static str)
    ensures
        user_agents().contains(agent@),
{
    let agents = [
        "Mozilla/5.0 (Macintosh; Intel Mac OS X 10_15_7) AppleWebKit/537.36 (KHTML, like Gecko) Chrome/143.0.0.0 Safari/537.36",
        "Mozilla/5.0 (Macintosh; Intel Mac OS X 10_15_7) AppleWebKit/605.1.15 (KHTML, like Gecko) Version/18.5 Safari/605.1.15",
        "Mozilla/5.0 (Windows NT 10.0; Win64; x64) AppleWebKit/537.36 (KHTML, like Gecko) Chrome/143.0.0.0 Safari/537.36",
        "Mozilla/5.0 (Windows NT 10.0; Win64; x64; rv:140.0) Gecko/20100101 Firefox/140.0",
        "Mozilla/5.0 (X11; Linux x86_64) AppleWebKit/537.36 (KHTML, like Gecko) Chrome/143.0.0.0 Safari/537.36",
    ];
    let chosen = choose_text(agents.as_slice());
    let agent = agent_or_first(chosen, agents.as_slice());
    proof {
        let i = choose|i: int| 0 <= i < agents@.len() && (#[trigger] agents@[i])@ == agent@;
        assert(user_agents()[i] == agents@[i]@);
    }
    agent
}

/// The number of servers that a tile is asked of, one after the other.
pub const SERVERS: usize = 4;

/// The name of a server.
pub open spec fn server_name(i: int) -> Seq<char> {
    if i == 0 {
        "mt0"@
    } else if i == 1 {
        "mt1"@
    } else if i == 2 {
        "mt2"@
    } else {
        "mt3"@
    }
}

/// The name of a server.
pub fn subdomain(i: usize) -> (name: &'static str)
    requires
        i < SERVERS,
    ensures
        name@ == server_name(i as int),
{
    if i == 0 {
        "mt0"
    } else if i == 1 {
        "mt1"
    } else if i == 2 {
        "mt2"
    } else {
        "mt3"
    }
}

/// The address of a tile on a server. A template tells it by the places of the server's name and
/// the coordinates; without one it is that of the default source.
pub open spec fn tile_address(server: Seq<char>, tile: Tile, template: Option<Seq<char>>) -> Seq<
    char,
> {
    match template {
        Some(template) => {
            let with_server = replaced(template, "{sub}"@, server);
            let with_x = replaced(with_server, "{x}"@, decimal(tile.x as nat));
            let with_y = replaced(with_x, "{y}"@, decimal(tile.y as nat));
            replaced(with_y, "{z}"@, decimal(tile.z as nat))
        },
        None => "https://"@ + server + ".google.com/vt/lyrs=s&x="@ + decimal(tile.x as nat) + "&y="@
            + decimal(tile.y as nat) + "&z="@ + decimal(tile.z as nat),
    }
}

/// The address of a tile on a server.
pub fn tile_url(subdomain: &str, tile: Tile, template: Option<&str>) -> (url: String)
    ensures
        url@ == tile_address(
            subdomain@,
            tile,
            match template {
                Some(template) => Some(template@),
                None => None,
            },
        ),
{
    if let Some(template) = template {
        proof {
            reveal_strlit("{sub}");
            reveal_strlit("{x}");
            reveal_strlit("{y}");
            reveal_strlit("{z}");
        }
        let x = decimal_text(tile.x as u64);
        let y = decimal_text(tile.y as u64);
        let z = decimal_text(tile.z as u64);
        let url = replace_text(template, "{sub}", subdomain);
        let url = replace_text(url.as_str(), "{x}", x.as_str());
        let url = replace_text(url.as_str(), "{y}", y.as_str());
        return replace_text(url.as_str(), "{z}", z.as_str());
    }
    let mut url = "https://".to_owned();
    url.append(subdomain);
    url.append(".google.com/vt/lyrs=s&x=");
    push_decimal(&mut url, tile.x as u64);
    url.append("&y=");
    push_decimal(&mut url, tile.y as u64);
    url.append("&z=");
    push_decimal(&mut url, tile.z as u64);
    url
}

/// The address to ask for a tile after a number of failed attempts, while a server is left.
pub fn attempt_url(attempt: usize, tile: Tile, template: Option<&str>) -> (url: Option<String>)
    ensures
        url is Some <==> attempt < SERVERS,
        url matches Some(text) ==> text@ == tile_address(
            server_name(attempt as int),
            tile,
            match template {
                Some(template) => Some(template@),
                None => None,
            },
        ),
{
    if attempt < SERVERS {
        Some(tile_url(subdomain(attempt), tile, template))
    } else {
        None
    }
}

/// The most bytes of an answer that holds no image.
pub const LONGEST_REFUSAL: usize = 100;

/// What a server answered: whether it reports success, and the number of bytes it sent. A request
/// that failed counts as an answer without success.
#[derive(Debug, Clone, Copy, PartialEq, Eq, Structural)]
pub struct Answer {
    pub success: bool,
    pub bytes: usize,
}

impl Answer {
    /// The answer holds a tile: it reports success and is longer than an error message.
    pub open spec fn holds_tile(self) -> bool {
        self.success && self.bytes > LONGEST_REFUSAL
    }
}

/// The attempt that follows an answer, where the answer holds no tile. The first answer with a tile
/// ends the attempts.
pub fn after_answer(attempt: usize, success: bool, bytes: usize) -> (next: Option<usize>)
    requires
        attempt < SERVERS,
    ensures
        next is None <==> (Answer { success, bytes }).holds_tile(),
        next matches Some(n) ==> n == attempt + 1,
{
    if success && bytes > LONGEST_REFUSAL {
        None
    } else {
        Some(attempt + 1)
    }
}

/// The attempt that gives the tile, where attempts go on from `attempt` while a server is left and
/// none of them has answered with a tile.
pub open spec fn attempt_with_tile(answers: Seq<Answer>, attempt: int) -> Option<int>
    decreases SERVERS - attempt,
{
    if attempt < 0 || attempt >= SERVERS {
        None
    } else if answers[attempt].holds_tile() {
        Some(attempt)
    } else {
        attempt_with_tile(answers, attempt + 1)
    }
}

/// The first good answer wins: it comes from the first server that answers with a tile, and a
/// download fails only where none of them does.
pub proof fn law_first_good_answer(answers: Seq<Answer>, attempt: int)
    requires
        answers.len() == SERVERS,
        0 <= attempt <= SERVERS,
    ensures
        match attempt_with_tile(answers, attempt) {
            Some(i) => {
                &&& attempt <= i < SERVERS
                &&& answers[i].holds_tile()
                &&& forall|k: int| attempt <= k < i ==> !(#[trigger] answers[k]).holds_tile()
            },
            None => forall|k: int|
                attempt <= k < SERVERS ==> !(#[trigger] answers[k]).holds_tile(),
        },
    decreases SERVERS - attempt,
{
    if attempt < SERVERS && !answers[attempt].holds_tile() {
        law_first_good_answer(answers, attempt + 1);
    }
}

/// A tile that was downloaded.
#[derive(Debug, Clone)]
pub struct DownloadedTile {
    pub tile: Tile,
    pub bounds: TileBounds,
    pub path: String,
    pub bytes: usize,
}

/// What was downloaded.
pub struct DownloadedView {
    pub tile: Tile,
    pub bounds: TileBounds,
    pub path: Seq<char>,
    pub bytes: usize,
}

impl View for DownloadedTile {
    type V = DownloadedView;

    open spec fn view(&self) -> DownloadedView {
        DownloadedView {
            tile: self.tile,
            bounds: self.bounds,
            path: self.path@,
            bytes: self.bytes,
        }
    }
}

/// What a list of downloaded tiles is.
pub open spec fn downloaded_views(tiles: Seq<DownloadedTile>) -> Seq<DownloadedView> {
    tiles.map_values(|tile: DownloadedTile| tile@)
}

/// How far a download has come.
#[derive(Debug, Clone, Copy, PartialEq, Eq, Structural)]
pub struct DownloadProgress {
    pub completed: usize,
    pub downloaded: usize,
    pub failed: usize,
    pub tile: Tile,
}

/// What became of a download.
#[derive(Debug, Clone)]
pub struct DownloadReport {
    pub center: Tile,
    pub tiles: Vec<DownloadedTile>,
    pub failed: Vec<Tile>,
}

/// What a report says.
pub struct ReportView {
    pub center: Tile,
    pub tiles: Seq<DownloadedView>,
    pub failed: Seq<Tile>,
}

impl View for DownloadReport {
    type V = ReportView;

    open spec fn view(&self) -> ReportView {
        ReportView {
            center: self.center,
            tiles: downloaded_views(self.tiles@),
            failed: self.failed@,
        }
    }
}

/// What became of a tile: what it covers and the number of bytes that were downloaded, or none
/// where the download failed.
pub struct Outcome {
    pub tile: Tile,
    pub bounds: TileBounds,
    pub bytes: Option<usize>,
}

/// A report with one more outcome.
pub open spec fn recorded(report: ReportView, out: Seq<char>, outcome: Outcome) -> ReportView {
    match outcome.bytes {
        Some(bytes) => ReportView {
            tiles: report.tiles.push(
                DownloadedView {
                    tile: outcome.tile,
                    bounds: outcome.bounds,
                    path: tile_file(out, outcome.tile),
                    bytes,
                },
            ),
            ..report
        },
        None => ReportView { failed: report.failed.push(outcome.tile), ..report },
    }
}

/// The report of a whole download with the given outcomes, in the order in which they came.
pub open spec fn download_report(center: Tile, out: Seq<char>, outcomes: Seq<Outcome>) -> ReportView
    decreases outcomes.len(),
{
    if outcomes.len() == 0 {
        ReportView { center, tiles: Seq::empty(), failed: Seq::empty() }
    } else {
        recorded(download_report(center, out, outcomes.drop_last()), out, outcomes.last())
    }
}

/// The tiles of some outcomes.
pub open spec fn outcome_tiles(outcomes: Seq<Outcome>) -> Seq<Tile> {
    outcomes.map_values(|outcome: Outcome| outcome.tile)
}

/// The tiles that a report is about: those that were downloaded, then those that failed.
pub open spec fn reported_tiles(report: ReportView) -> Seq<Tile> {
    report.tiles.map_values(|tile: DownloadedView| tile.tile) + report.failed
}

/// The entry of a downloaded tile tells what one of the outcomes was.
pub open spec fn entry_of(entry: DownloadedView, out: Seq<char>, outcome: Outcome) -> bool {
    &&& outcome.tile == entry.tile
    &&& outcome.bounds == entry.bounds
    &&& outcome.bytes == Some(entry.bytes)
    &&& entry.path == tile_file(out, entry.tile)
}

/// Every tile of a download is reported as often as it was asked for, as downloaded or as failed,
/// whatever the order in which the outcomes came. An entry tells where the tile was written, what
/// it covers and how many bytes came; a tile without bytes is a failed one.
pub proof fn law_download_accounts_for_tiles(center: Tile, out: Seq<char>, outcomes: Seq<Outcome>)
    ensures
        download_report(center, out, outcomes).center == center,
        reported_tiles(download_report(center, out, outcomes)).to_multiset() == outcome_tiles(
            outcomes,
        ).to_multiset(),
        forall|i: int|
            0 <= i < download_report(center, out, outcomes).tiles.len() ==> exists|k: int|
                0 <= k < outcomes.len() && entry_of(
                    #[trigger] download_report(center, out, outcomes).tiles[i],
                    out,
                    #[trigger] outcomes[k],
                ),
        forall|i: int|
            0 <= i < download_report(center, out, outcomes).failed.len() ==> exists|k: int|
                0 <= k < outcomes.len() && (#[trigger] outcomes[k]).bytes is None
                    && outcomes[k].tile == #[trigger] download_report(
                    center,
                    out,
                    outcomes,
                ).failed[i],
    decreases outcomes.len(),
{
    broadcast use vstd::seq_lib::group_to_multiset_ensures;

    let whole = download_report(center, out, outcomes);
    if outcomes.len() == 0 {
        assert(reported_tiles(whole) =~= outcome_tiles(outcomes));
    } else {
        let less = outcomes.drop_last();
        let last = outcomes.last();
        let front = download_report(center, out, less);
        law_download_accounts_for_tiles(center, out, less);
        let a = front.tiles.map_values(|tile: DownloadedView| tile.tile);
        let b = whole.tiles.map_values(|tile: DownloadedView| tile.tile);
        assert(outcome_tiles(outcomes) =~= outcome_tiles(less).push(last.tile));
        vstd::seq_lib::lemma_multiset_commutative(a, front.failed);
        vstd::seq_lib::lemma_multiset_commutative(b, whole.failed);
        if last.bytes is Some {
            assert(b =~= a.push(last.tile));
        } else {
            assert(b =~= a);
        }
        assert(reported_tiles(whole).to_multiset() =~= outcome_tiles(outcomes).to_multiset());
        assert(outcomes[outcomes.len() - 1] == last);
        assert forall|i: int| 0 <= i < whole.tiles.len() implies exists|k: int|
            0 <= k < outcomes.len() && entry_of(
                #[trigger] whole.tiles[i],
                out,
                #[trigger] outcomes[k],
            ) by {
            if i < front.tiles.len() {
                assert(whole.tiles[i] == front.tiles[i]);
                let k = choose|k: int|
                    0 <= k < less.len() && entry_of(front.tiles[i], out, #[trigger] less[k]);
                assert(outcomes[k] == less[k]);
            } else {
                assert(entry_of(whole.tiles[i], out, outcomes[outcomes.len() - 1]));
            }
        }
        assert forall|i: int| 0 <= i < whole.failed.len() implies exists|k: int|
            0 <= k < outcomes.len() && (#[trigger] outcomes[k]).bytes is None && outcomes[k].tile
                == #[trigger] whole.failed[i] by {
            if i < front.failed.len() {
                assert(whole.failed[i] == front.failed[i]);
                let k = choose|k: int|
                    0 <= k < less.len() && (#[trigger] less[k]).bytes is None && less[k].tile
                        == front.failed[i];
                assert(outcomes[k] == less[k]);
            } else {
                assert(outcomes[outcomes.len() - 1].tile == whole.failed[i]);
            }
        }
    }
}

/// A whole download splits its selection into downloaded and failed tiles: whatever the order in
/// which the outcomes of the selected tiles come, each selected tile is reported exactly once.
pub proof fn law_download_splits_selection(
    options: DownloadOptions,
    first: Tile,
    second: Tile,
    probes: Seq<TileProbe>,
    center: Tile,
    outcomes: Seq<Outcome>,
)
    requires
        selection_ready(options, first, second, probes),
        outcome_tiles(outcomes).to_multiset() == options_tiles(
            options,
            first,
            second,
            probes,
        ).to_multiset(),
    ensures
        reported_tiles(download_report(center, options.out@, outcomes)).to_multiset()
            == options_tiles(options, first, second, probes).to_multiset(),
        reported_tiles(download_report(center, options.out@, outcomes)).no_duplicates(),
{
    let tiles = options_tiles(options, first, second, probes);
    let reported = reported_tiles(download_report(center, options.out@, outcomes));
    law_download_accounts_for_tiles(center, options.out@, outcomes);
    law_selection_order(options, first, second, probes);
    tiles.lemma_multiset_has_no_duplicates();
    reported.lemma_multiset_has_no_duplicates_conv();
}

/// Recording one more outcome gives the report of the download with that outcome at the end.
pub proof fn law_recording_goes_on(
    center: Tile,
    out: Seq<char>,
    outcomes: Seq<Outcome>,
    outcome: Outcome,
)
    ensures
        recorded(download_report(center, out, outcomes), out, outcome) == download_report(
            center,
            out,
            outcomes.push(outcome),
        ),
{
    assert(outcomes.push(outcome).drop_last() =~= outcomes);
}

impl DownloadReport {
    /// The report of a download around a tile that has not begun.
    pub fn new(center: Tile) -> (report: DownloadReport)
        ensures
            report@ == (ReportView { center, tiles: Seq::empty(), failed: Seq::empty() }),
    {
        let report = DownloadReport { center, tiles: Vec::new(), failed: Vec::new() };
        assert(report@.tiles =~= Seq::<DownloadedView>::empty());
        assert(report@.failed =~= Seq::<Tile>::empty());
        report
    }

    /// Records what became of a tile: the number of bytes that were downloaded, or none where the
    /// download failed.
    pub fn record(
        &mut self,
        out: &str,
        tile: Tile,
        bounds: TileBounds,
        bytes: Option<usize>,
    ) -> (progress: DownloadProgress)
        requires
            old(self).tiles@.len() + old(self).failed@.len() < usize::MAX,
        ensures
            final(self)@ == recorded(old(self)@, out@, (Outcome { tile, bounds, bytes })),
            progress.completed == old(self).tiles@.len() + old(self).failed@.len() + 1,
            progress.downloaded == final(self).tiles@.len(),
            progress.failed == final(self).failed@.len(),
            progress.completed == progress.downloaded + progress.failed,
            progress.tile == tile,
    {
        let ghost before = self@;
        match bytes {
            Some(bytes) => {
                let done = DownloadedTile { tile, bounds, path: tile_path(out, tile), bytes };
                self.tiles.push(done);
                assert(self@.tiles =~= before.tiles.push(done@));
            },
            None => {
                self.failed.push(tile);
            },
        }
        self.progress(tile)
    }

    /// How far the download has come, after the given tile.
    pub fn progress(&self, tile: Tile) -> (progress: DownloadProgress)
        requires
            self.tiles@.len() + self.failed@.len() <= usize::MAX,
        ensures
            progress.completed == self.tiles@.len() + self.failed@.len(),
            progress.downloaded == self.tiles@.len(),
            progress.failed == self.failed@.len(),
            progress.tile == tile,
    {
        DownloadProgress {
            completed: self.tiles.len() + self.failed.len(),
            downloaded: self.tiles.len(),
            failed: self.failed.len(),
            tile,
        }
    }
}

/// Different tiles have different addresses on a server of the default source.
pub proof fn law_default_addresses_differ(server: Seq<char>, a: Tile, b: Tile)
    requires
        tile_address(server, a, None) == tile_address(server, b, None),
    ensures
        a == b,
{
    reveal_strlit("&y=");
    reveal_strlit("&z=");
    reveal_strlit(".google.com/vt/lyrs=s&x=");
    let front = "https://"@ + server + ".google.com/vt/lyrs=s&x="@;
    let a1 = front + decimal(a.x as nat);
    let b1 = front + decimal(b.x as nat);
    let a2 = a1 + "&y="@ + decimal(a.y as nat);
    let b2 = b1 + "&y="@ + decimal(b.y as nat);
    crate::ids::lemma_trailing_number(a2, b2, "&z="@, a.z as nat, b.z as nat);
    crate::ids::lemma_trailing_number(a1, b1, "&y="@, a.y as nat, b.y as nat);
    let host = "https://"@ + server;
    assert(host + ".google.com/vt/lyrs=s&x="@ =~= front);
    crate::ids::lemma_trailing_number(
        host,
        host,
        ".google.com/vt/lyrs=s&x="@,
        a.x as nat,
        b.x as nat,
    );
}

/// The servers are numbered from zero to three.
pub proof fn law_server_names(i: int)
    requires
        0 <= i < SERVERS,
    ensures
        SERVERS == 4,
        server_name(i) == seq!['m', 't'] + decimal(i as nat),
{
    reveal_strlit("mt0");
    reveal_strlit("mt1");
    reveal_strlit("mt2");
    reveal_strlit("mt3");
    assert(server_name(i) =~= seq!['m', 't'] + decimal(i as nat));
}

/// The default address asks the server for the column, the row and the zoom level, in this order.
pub proof fn law_default_address(server: Seq<char>, tile: Tile)
    ensures
        tile_address(server, tile, None) == "https://"@ + server + ".google.com/vt/lyrs=s"@
            + "&x="@ + decimal(tile.x as nat) + "&y="@ + decimal(tile.y as nat) + "&z="@ + decimal(
            tile.z as nat,
        ),
{
    reveal_strlit(".google.com/vt/lyrs=s&x=");
    reveal_strlit(".google.com/vt/lyrs=s");
    reveal_strlit("&x=");
    assert(".google.com/vt/lyrs=s&x="@ =~= ".google.com/vt/lyrs=s"@ + "&x="@);
    assert("https://"@ + server + ".google.com/vt/lyrs=s&x="@ =~= "https://"@ + server
        + ".google.com/vt/lyrs=s"@ + "&x="@);
}

proof fn lemma_plain_front(front: Seq<char>, back: Seq<char>, pattern: Seq<char>, with: Seq<char>)
    requires
        pattern.len() > 0,
        !front.contains(pattern[0]),
    ensures
        replaced(front + back, pattern, with) == front + replaced(back, pattern, with),
    decreases front.len(),
{
    if front.len() == 0 {
        assert(front + back =~= back);
        assert(front + replaced(back, pattern, with) =~= replaced(back, pattern, with));
    } else {
        let whole = front + back;
        let rest = front.skip(1);
        assert(front[0] != pattern[0]);
        assert(whole[0] == front[0]);
        if pattern.is_prefix_of(whole) {
            assert(whole.subrange(0, pattern.len() as int)[0] == whole[0]);
        }
        if rest.contains(pattern[0]) {
            let i = choose|i: int| 0 <= i < rest.len() && rest[i] == pattern[0];
            assert(front[i + 1] == pattern[0]);
        }
        lemma_plain_front(rest, back, pattern, with);
        assert(whole.skip(1) =~= rest + back);
        assert(front + replaced(back, pattern, with) =~= seq![front[0]] + (rest + replaced(
            back,
            pattern,
            with,
        )));
    }
}

proof fn lemma_other_marker(marker: Seq<char>, back: Seq<char>, pattern: Seq<char>, with: Seq<char>)
    requires
        pattern.len() >= 2,
        marker.len() >= 2,
        marker[1] != pattern[1],
        !marker.skip(1).contains(pattern[0]),
    ensures
        replaced(marker + back, pattern, with) == marker + replaced(back, pattern, with),
{
    let whole = marker + back;
    let rest = marker.skip(1);
    if pattern.is_prefix_of(whole) {
        assert(whole.subrange(0, pattern.len() as int)[1] == whole[1]);
        assert(whole[1] == marker[1]);
    }
    assert(whole.skip(1) =~= rest + back);
    lemma_plain_front(rest, back, pattern, with);
    assert(marker + replaced(back, pattern, with) =~= seq![marker[0]] + (rest + replaced(
        back,
        pattern,
        with,
    )));
}

proof fn lemma_own_marker(back: Seq<char>, pattern: Seq<char>, with: Seq<char>)
    requires
        pattern.len() > 0,
    ensures
        replaced(pattern + back, pattern, with) == with + replaced(back, pattern, with),
{
    let whole = pattern + back;
    assert(whole.subrange(0, pattern.len() as int) =~= pattern);
    assert(whole.skip(pattern.len() as int) =~= back);
}

proof fn lemma_markers()
    ensures
        "{sub}"@ == seq!['{', 's', 'u', 'b', '}'],
        "{x}"@ == seq!['{', 'x', '}'],
        "{y}"@ == seq!['{', 'y', '}'],
        "{z}"@ == seq!['{', 'z', '}'],
{
    reveal_strlit("{sub}");
    reveal_strlit("{x}");
    reveal_strlit("{y}");
    reveal_strlit("{z}");
    assert("{sub}"@ =~= seq!['{', 's', 'u', 'b', '}']);
    assert("{x}"@ =~= seq!['{', 'x', '}']);
    assert("{y}"@ =~= seq!['{', 'y', '}']);
    assert("{z}"@ =~= seq!['{', 'z', '}']);
}

/// A template without a brace is the address.
pub proof fn law_plain_template(server: Seq<char>, tile: Tile, text: Seq<char>)
    requires
        !text.contains('{'),
    ensures
        tile_address(server, tile, Some(text)) == text,
{
    lemma_markers();
    assert(text =~= text + Seq::<char>::empty());
    lemma_plain_front(text, Seq::<char>::empty(), "{sub}"@, server);
    lemma_plain_front(text, Seq::<char>::empty(), "{x}"@, decimal(tile.x as nat));
    lemma_plain_front(text, Seq::<char>::empty(), "{y}"@, decimal(tile.y as nat));
    lemma_plain_front(text, Seq::<char>::empty(), "{z}"@, decimal(tile.z as nat));
}

/// A template is filled in place by place: plain text stays, `{x}` becomes the column, `{y}` the
/// row, `{z}` the zoom level and `{sub}` the name of the server, in whatever order and however often
/// they stand there.
pub proof fn law_template_is_filled(
    server: Seq<char>,
    tile: Tile,
    front: Seq<char>,
    rest: Seq<char>,
)
    requires
        !front.contains('{'),
        !server.contains('{'),
    ensures
        tile_address(server, tile, Some(front + seq!['{', 'x', '}'] + rest)) == front + decimal(
            tile.x as nat,
        ) + tile_address(server, tile, Some(rest)),
        tile_address(server, tile, Some(front + seq!['{', 'y', '}'] + rest)) == front + decimal(
            tile.y as nat,
        ) + tile_address(server, tile, Some(rest)),
        tile_address(server, tile, Some(front + seq!['{', 'z', '}'] + rest)) == front + decimal(
            tile.z as nat,
        ) + tile_address(server, tile, Some(rest)),
        tile_address(server, tile, Some(front + seq!['{', 's', 'u', 'b', '}'] + rest)) == front
            + server + tile_address(server, tile, Some(rest)),
{
    lemma_markers();
    lemma_filled(front, "{x}"@, rest, server, tile);
    lemma_filled(front, "{y}"@, rest, server, tile);
    lemma_filled(front, "{z}"@, rest, server, tile);
    lemma_filled(front, "{sub}"@, rest, server, tile);
}

proof fn lemma_filled(
    front: Seq<char>,
    marker: Seq<char>,
    rest: Seq<char>,
    server: Seq<char>,
    tile: Tile,
)
    requires
        !front.contains('{'),
        !server.contains('{'),
        marker == seq!['{', 's', 'u', 'b', '}'] || marker == seq!['{', 'x', '}'] || marker == seq![
            '{',
            'y',
            '}',
        ] || marker == seq!['{', 'z', '}'],
    ensures
        tile_address(server, tile, Some(front + marker + rest)) == front + (if marker[1] == 's' {
            server
        } else if marker[1] == 'x' {
            decimal(tile.x as nat)
        } else if marker[1] == 'y' {
            decimal(tile.y as nat)
        } else {
            decimal(tile.z as nat)
        }) + tile_address(server, tile, Some(rest)),
{
    lemma_markers();
    let x = decimal(tile.x as nat);
    let y = decimal(tile.y as nat);
    let z = decimal(tile.z as nat);
    lemma_decimal_value(tile.x as nat);
    lemma_decimal_value(tile.y as nat);
    lemma_decimal_value(tile.z as nat);
    assert(!x.contains('{') && !y.contains('{') && !z.contains('{'));
    let r1 = replaced(rest, "{sub}"@, server);
    let r2 = replaced(r1, "{x}"@, x);
    let r3 = replaced(r2, "{y}"@, y);
    let r4 = replaced(r3, "{z}"@, z);
    let m1 = if marker[1] == 's' {
        server
    } else {
        marker
    };
    let m2 = if marker[1] == 'x' {
        x
    } else {
        m1
    };
    let m3 = if marker[1] == 'y' {
        y
    } else {
        m2
    };
    let m4 = if marker[1] == 'z' {
        z
    } else {
        m3
    };
    lemma_fill_step(front, marker, rest, "{sub}"@, server, m1);
    lemma_fill_step(front, m1, r1, "{x}"@, x, m2);
    lemma_fill_step(front, m2, r2, "{y}"@, y, m3);
    lemma_fill_step(front, m3, r3, "{z}"@, z, m4);
}

proof fn lemma_fill_step(
    front: Seq<char>,
    part: Seq<char>,
    rest: Seq<char>,
    pattern: Seq<char>,
    with: Seq<char>,
    next: Seq<char>,
)
    requires
        !front.contains('{'),
        pattern.len() >= 2,
        pattern[0] == '{',
        part == pattern && next == with || part.len() >= 2 && part[1] != pattern[1] && !part.skip(
            1,
        ).contains('{') && next == part || !part.contains('{') && next == part,
    ensures
        replaced(front + part + rest, pattern, with) == front + next + replaced(
            rest,
            pattern,
            with,
        ),
{
    assert(front + part + rest =~= front + (part + rest));
    lemma_plain_front(front, part + rest, pattern, with);
    if part == pattern && next == with {
        lemma_own_marker(rest, pattern, with);
    } else if !part.contains('{') {
        lemma_plain_front(part, rest, pattern, with);
    } else {
        lemma_other_marker(part, rest, pattern, with);
    }
    assert(front + next + replaced(rest, pattern, with) =~= front + (next + replaced(
        rest,
        pattern,
        with,
    )));
}

/// An answer holds a tile where it reports success and has more than a hundred bytes.
pub proof fn law_answers_with_a_tile(answer: Answer)
    ensures
        answer.holds_tile() <==> answer.success && answer.bytes >= 101,
{
}

/// A report lists the tiles with bytes as downloaded and those without as failed, both in the order
/// in which the outcomes came.
pub proof fn law_report_keeps_order(center: Tile, out: Seq<char>, outcomes: Seq<Outcome>)
    ensures
        ({
            let report = download_report(center, out, outcomes);
            &&& report.center == center
            &&& report.tiles == outcomes.filter(
                |outcome: Outcome| outcome.bytes is Some,
            ).map_values(
                |outcome: Outcome|
                    DownloadedView {
                        tile: outcome.tile,
                        bounds: outcome.bounds,
                        path: tile_file(out, outcome.tile),
                        bytes: outcome.bytes->0,
                    },
            )
            &&& report.failed == outcomes.filter(
                |outcome: Outcome| outcome.bytes is None,
            ).map_values(|outcome: Outcome| outcome.tile)
        }),
    decreases outcomes.len(),
{
    reveal(Seq::filter);
    let report = download_report(center, out, outcomes);
    let good = |outcome: Outcome| outcome.bytes is Some;
    let bad = |outcome: Outcome| outcome.bytes is None;
    let entry = |outcome: Outcome|
        DownloadedView {
            tile: outcome.tile,
            bounds: outcome.bounds,
            path: tile_file(out, outcome.tile),
            bytes: outcome.bytes->0,
        };
    let tile = |outcome: Outcome| outcome.tile;
    if outcomes.len() > 0 {
        let front = outcomes.drop_last();
        law_report_keeps_order(center, out, front);
        let last = outcomes.last();
        if last.bytes is Some {
            assert(outcomes.filter(good) =~= front.filter(good).push(last));
            assert(outcomes.filter(bad) =~= front.filter(bad));
        } else {
            assert(outcomes.filter(good) =~= front.filter(good));
            assert(outcomes.filter(bad) =~= front.filter(bad).push(last));
        }
    }
    assert(report.tiles =~= outcomes.filter(good).map_values(entry));
    assert(report.failed =~= outcomes.filter(bad).map_values(tile));
}

} // verus!
