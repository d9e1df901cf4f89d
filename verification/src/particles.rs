use vstd::prelude::*;
use crate::json::{Json, first_member_index, member_position};
use crate::query::{
    Query, QueryMap, after_last_query_mark, fields_of_pieces, law_query_part_without_mark,
    law_query_without_percent, lemma_last_eq_found, lemma_split_append_plain, map_of_pairs, mark_at,
    pair_views, parsed_query, piece_field, query_field_pattern, query_fields, query_of_fields, query_view,
    regex_compiles, split_on,
};
use crate::text::same_text;

verus! {

broadcast use vstd::string::group_string_axioms;

/// The HTTP methods the particles backend tells apart.
#[derive(PartialEq, Eq, Structural, Debug, Clone, Copy)]
pub enum RequestMethod {
    Get,
    Connect,
    Post,
    Other,
}

/// What a particles request asks for.
pub enum ParticlesRoute {
    /// Read a room's file (`GET`, `type=view`).
    View(QueryMap),
    /// Create a room (`GET`, `type=create`).
    Create(QueryMap),
    /// Join a room (`CONNECT`).
    Join,
    /// Record a move (`POST`, `type=move`).
    Move(QueryMap),
    /// Record the winner (`POST`, `type=win`).
    Win(QueryMap),
    /// Anything else: answered with status 400.
    BadRequest,
}

/// The kinds of particles routes.
#[derive(PartialEq, Eq, Structural, Debug, Clone, Copy)]
pub enum RouteKind {
    View,
    Create,
    Join,
    Move,
    Win,
    BadRequest,
}

impl ParticlesRoute {
    pub open spec fn kind(self) -> RouteKind {
        match self {
            ParticlesRoute::View(_) => RouteKind::View,
            ParticlesRoute::Create(_) => RouteKind::Create,
            ParticlesRoute::Join => RouteKind::Join,
            ParticlesRoute::Move(_) => RouteKind::Move,
            ParticlesRoute::Win(_) => RouteKind::Win,
            ParticlesRoute::BadRequest => RouteKind::BadRequest,
        }
    }

    /// The query fields the route carries.
    pub open spec fn fields(self) -> Option<Map<Seq<char>, Seq<char>>> {
        match self {
            ParticlesRoute::View(q) => Some(q@),
            ParticlesRoute::Create(q) => Some(q@),
            ParticlesRoute::Move(q) => Some(q@),
            ParticlesRoute::Win(q) => Some(q@),
            _ => None,
        }
    }
}

/// The route for a method and the request's parsed query: `GET` reads or
/// creates a room, `POST` records a move or a winner, as the `type` field
/// says; `CONNECT` joins a room.
pub open spec fn route_kind(method: RequestMethod, fields: Option<Map<Seq<char>, Seq<char>>>) -> RouteKind {
    match method {
        RequestMethod::Connect => RouteKind::Join,
        RequestMethod::Other => RouteKind::BadRequest,
        RequestMethod::Get => match fields {
            Some(m) => if m.contains_key("type"@) && m["type"@] == "view"@ {
                RouteKind::View
            } else if m.contains_key("type"@) && m["type"@] == "create"@ {
                RouteKind::Create
            } else {
                RouteKind::BadRequest
            },
            None => RouteKind::BadRequest,
        },
        RequestMethod::Post => match fields {
            Some(m) => if m.contains_key("type"@) && m["type"@] == "move"@ {
                RouteKind::Move
            } else if m.contains_key("type"@) && m["type"@] == "win"@ {
                RouteKind::Win
            } else {
                RouteKind::BadRequest
            },
            None => RouteKind::BadRequest,
        },
    }
}

/// Routes a particles request by its method and the `type` field of its query.
pub fn particles_request(method: RequestMethod, url: &str) -> (r: ParticlesRoute)
    ensures
        r.kind() == route_kind(method, parsed_query(after_last_query_mark(url@))),
        r.fields() is Some ==> r.fields() == parsed_query(after_last_query_mark(url@)),
{
    match method {
        RequestMethod::Connect => ParticlesRoute::Join,
        RequestMethod::Other => ParticlesRoute::BadRequest,
        RequestMethod::Get => {
            let query = match url.query() {
                Some(q) => q,
                None => return ParticlesRoute::BadRequest,
            };
            let is_view = match query.get("type") {
                Some(t) => same_text(t.as_str(), "view"),
                None => return ParticlesRoute::BadRequest,
            };
            let is_create = match query.get("type") {
                Some(t) => same_text(t.as_str(), "create"),
                None => false,
            };
            if is_view {
                ParticlesRoute::View(query)
            } else if is_create {
                ParticlesRoute::Create(query)
            } else {
                ParticlesRoute::BadRequest
            }
        },
        RequestMethod::Post => {
            let query = match url.query() {
                Some(q) => q,
                None => return ParticlesRoute::BadRequest,
            };
            let is_move = match query.get("type") {
                Some(t) => same_text(t.as_str(), "move"),
                None => return ParticlesRoute::BadRequest,
            };
            let is_win = match query.get("type") {
                Some(t) => same_text(t.as_str(), "win"),
                None => false,
            };
            if is_move {
                ParticlesRoute::Move(query)
            } else if is_win {
                ParticlesRoute::Win(query)
            } else {
                ParticlesRoute::BadRequest
            }
        },
    }
}

/// The value of a required field, or status 400 where it is missing.
fn required(query: &QueryMap, key: &str) -> (r: Result<String, u16>)
    ensures
        r matches Ok(v) ==> query@.contains_key(key@) && v@ == query@[key@],
        r matches Err(s) ==> s == 400 && !query@.contains_key(key@),
{
    match query.get(key) {
        Some(v) => Ok(v.clone()),
        None => Err(400),
    }
}

/// Reads the room code of a view request; status 400 without one.
pub fn handle_view_request(query: &QueryMap) -> (r: Result<String, u16>)
    ensures
        r matches Ok(code) ==> query@.contains_key("room_code"@) && code@ == query@["room_code"@],
        r matches Err(s) ==> s == 400 && !query@.contains_key("room_code"@),
{
    required(query, "room_code")
}

/// The fields of a move request.
pub struct MoveRequest {
    pub room_code: String,
    pub player_code: String,
    pub movement: String,
}

/// Reads a move request: room code, player code and move; status 400 where
/// one of them is missing.
pub fn handle_move_request(query: &QueryMap) -> (r: Result<MoveRequest, u16>)
    ensures
        r matches Ok(m) ==> query@.contains_key("room_code"@) && m.room_code@ == query@["room_code"@]
            && query@.contains_key("player_code"@) && m.player_code@ == query@["player_code"@]
            && query@.contains_key("move"@) && m.movement@ == query@["move"@],
        r matches Err(s) ==> s == 400,
        r is Err <==> !(query@.contains_key("room_code"@) && query@.contains_key("player_code"@)
            && query@.contains_key("move"@)),
{
    let room_code = required(query, "room_code")?;
    let player_code = required(query, "player_code")?;
    let movement = required(query, "move")?;
    Ok(MoveRequest { room_code, player_code, movement })
}

/// The fields of a win request.
pub struct WinRequest {
    pub room_code: String,
    pub player_code: String,
}

/// Reads a win request: room code and player code; status 400 where one of
/// them is missing.
pub fn handle_win_request(query: &QueryMap) -> (r: Result<WinRequest, u16>)
    ensures
        r matches Ok(w) ==> query@.contains_key("room_code"@) && w.room_code@ == query@["room_code"@]
            && query@.contains_key("player_code"@) && w.player_code@ == query@["player_code"@],
        r matches Err(s) ==> s == 400,
        r is Err <==> !(query@.contains_key("room_code"@) && query@.contains_key("player_code"@)),
{
    let room_code = required(query, "room_code")?;
    let player_code = required(query, "player_code")?;
    Ok(WinRequest { room_code, player_code })
}

/// Reads the room code of a join request from its URL; status 400 where the
/// query does not parse or holds no room code.
pub fn handle_join_request(url: &str) -> (r: Result<String, u16>)
    ensures
        r matches Err(s) ==> s == 400,
        r matches Ok(code) ==> parsed_query(after_last_query_mark(url@)) matches Some(m)
            && m.contains_key("room_code"@) && code@ == m["room_code"@],
        r is Err <==> !(parsed_query(after_last_query_mark(url@)) matches Some(m) && m.contains_key("room_code"@)),
{
    let query = match url.query() {
        Some(q) => q,
        None => return Err(400),
    };
    required(&query, "room_code")
}

/// How a room's file is to change.
pub enum RoomUpdate {
    /// The member the request needs is not there: answered with status 500.
    Missing,
    /// Write `document` back to the room's file, after removing the file
    /// where `remove_first` says so.
    Rewrite { document: Json, remove_first: bool },
}

/// `after` is `before` with the string `text` added at the end of the array
/// that is the value of member `key`, and nothing else changed.
pub open spec fn appends_text(before: Json, after: Json, key: Seq<char>, text: Seq<char>) -> bool {
    &&& before is Object
    &&& after is Object
    &&& before.member_index(key) matches Some(i)
    &&& before.members()[i].1 matches Json::Array(items)
    &&& after.members().len() == before.members().len()
    &&& forall|j: int| 0 <= j < before.members().len() && j != i ==> #[trigger] after.members()[j] == before.members()[j]
    &&& after.members()[i].0 == before.members()[i].0
    &&& after.members()[i].1 matches Json::Array(grown)
    &&& grown@.len() == items@.len() + 1
    &&& grown@.take(items@.len() as int) == items@
    &&& grown@.last().text() == Some(text)
}

/// `after` is `before` with the value of member `key` replaced by the string
/// `text`, and nothing else changed.
pub open spec fn sets_text(before: Json, after: Json, key: Seq<char>, text: Seq<char>) -> bool {
    &&& before is Object
    &&& after is Object
    &&& before.member_index(key) matches Some(i)
    &&& after.members().len() == before.members().len()
    &&& forall|j: int| 0 <= j < before.members().len() && j != i ==> #[trigger] after.members()[j] == before.members()[j]
    &&& after.members()[i].0 == before.members()[i].0
    &&& after.members()[i].1.text() == Some(text)
}

/// Whether the value of member `key` is an array.
pub open spec fn member_is_array(doc: Json, key: Seq<char>) -> bool {
    doc.member(key) matches Some(v) && v is Array
}

/// Adds the string `text` to the end of the array at position `i`.
fn push_text_at(entries: &mut Vec<(String, Json)>, i: usize, text: &str)
    requires
        i < old(entries)@.len(),
        old(entries)@[i as int].1 is Array,
    ensures
        ({
            let before = old(entries)@;
            let after = final(entries)@;
            &&& after.len() == before.len()
            &&& forall|j: int| 0 <= j < before.len() && j != i ==> #[trigger] after[j] == before[j]
            &&& after[i as int].0 == before[i as int].0
            &&& before[i as int].1 matches Json::Array(items)
            &&& after[i as int].1 matches Json::Array(grown)
            &&& grown@.len() == items@.len() + 1
            &&& grown@.take(items@.len() as int) == items@
            &&& grown@.last().text() == Some(text@)
        }),
{
    let (key, value) = entries.remove(i);
    match value {
        Json::Array(mut items) => {
            let ghost old_items = items@;
            items.push(Json::Str(text.to_owned()));
            assert(items@.take(old_items.len() as int) == old_items);
            entries.insert(i, (key, Json::Array(items)));
        },
        _ => {
            assert(false);
        },
    }
}

/// Records a move: appends the move, as a string, to the `game_log` array of
/// the room's document. Where the document has no `game_log` member (or is no
/// object) nothing is written; where `game_log` is not an array the file is
/// removed and the document written back unchanged.
pub fn record_move(doc: Json, movement: &str) -> (r: RoomUpdate)
    ensures
        r is Missing <==> doc.member_index("game_log"@) is None,
        r matches RoomUpdate::Rewrite { document, remove_first } ==> if member_is_array(doc, "game_log"@) {
            !remove_first && appends_text(doc, document, "game_log"@, movement@)
        } else {
            remove_first && document == doc
        },
{
    append_to_member(doc, "game_log", movement, false)
}

/// Records a new player: appends the player's code, as a string, to the
/// `players` array of the room's document. Where there is no `players`
/// array (no such member, a value of another kind, or no object) the file is
/// removed and the document written back unchanged.
pub fn add_player(doc: Json, user_code: &str) -> (r: RoomUpdate)
    ensures
        r matches RoomUpdate::Rewrite { document, remove_first } && if member_is_array(doc, "players"@) {
            !remove_first && appends_text(doc, document, "players"@, user_code@)
        } else {
            remove_first && document == doc
        },
{
    append_to_member(doc, "players", user_code, true)
}

/// Appends `text` to the array member `key`; what happens where there is no
/// such member depends on `missing_is_rewrite`.
fn append_to_member(doc: Json, key: &str, text: &str, missing_is_rewrite: bool) -> (r: RoomUpdate)
    ensures
        r is Missing <==> (doc.member_index(key@) is None && !missing_is_rewrite),
        r matches RoomUpdate::Rewrite { document, remove_first } ==> if member_is_array(doc, key@) {
            !remove_first && appends_text(doc, document, key@, text@)
        } else {
            remove_first && document == doc
        },
{
    match doc {
        Json::Object(mut entries) => {
            let ghost before = Json::Object(entries);
            match member_position(&entries, key) {
                None => {
                    if missing_is_rewrite {
                        RoomUpdate::Rewrite { document: Json::Object(entries), remove_first: true }
                    } else {
                        RoomUpdate::Missing
                    }
                },
                Some(i) => {
                    let ghost before_entries = entries@;
                    assert(doc.members() == before_entries);
                    assert(doc.member_index(key@) == Some(i as int));
                    assert(doc.member(key@) == Some(before_entries[i as int].1));
                    let is_array = match &entries[i].1 {
                        Json::Array(_) => true,
                        _ => false,
                    };
                    if is_array {
                        push_text_at(&mut entries, i, text);
                        RoomUpdate::Rewrite { document: Json::Object(entries), remove_first: false }
                    } else {
                        RoomUpdate::Rewrite { document: Json::Object(entries), remove_first: true }
                    }
                },
            }
        },
        other => {
            if missing_is_rewrite {
                RoomUpdate::Rewrite { document: other, remove_first: true }
            } else {
                RoomUpdate::Missing
            }
        },
    }
}

/// Records the winner: the `winner` member of the room's document becomes the
/// player's code, as a string. Where there is no `winner` member (or the
/// document is no object) nothing is written.
pub fn record_winner(doc: Json, player_code: &str) -> (r: RoomUpdate)
    ensures
        r is Missing <==> doc.member_index("winner"@) is None,
        r matches RoomUpdate::Rewrite { document, remove_first } ==> !remove_first && sets_text(
            doc,
            document,
            "winner"@,
            player_code@,
        ),
{
    match doc {
        Json::Object(mut entries) => {
            match member_position(&entries, "winner") {
                None => RoomUpdate::Missing,
                Some(i) => {
                    let ghost before = entries@;
                    let (key, _) = entries.remove(i);
                    entries.insert(i, (key, Json::Str(player_code.to_owned())));
                    assert forall|j: int| 0 <= j < before.len() && j != i implies #[trigger] entries@[j] == before[j] by {}
                    RoomUpdate::Rewrite { document: Json::Object(entries), remove_first: false }
                },
            }
        },
        _ => RoomUpdate::Missing,
    }
}

/// The form of a room or player code: a UUID in its hyphenated lower-case
/// text, 36 characters, hyphens at 8, 13, 18 and 23, lower-case hexadecimal
/// digits elsewhere.
pub open spec fn is_code_text(code: Seq<char>) -> bool {
    &&& code.len() == 36
    &&& forall|i: int| 0 <= i < 36 ==> if i == 8 || i == 13 || i == 18 || i == 23 {
        #[trigger] code[i] == '-'
    } else {
        ('0' <= code[i] <= '9') || ('a' <= code[i] <= 'f')
    }
}

/// `uuid::Uuid::new_v4` turned into text with its `Display`, which writes the
/// hyphenated lower-case form. The contract claims the form of the text
/// (`is_code_text`); which code comes out is random. `new_v4` panics where the
/// operating system's random source fails, a failure of the machine that no
/// `requires` can rule out.
#[verifier::external_body]
fn random_code() -> (code: String)
    ensures
        is_code_text(code@),
{
    uuid::Uuid::new_v4().to_string()
}

/// A fresh random code for a room or a player.
pub fn new_code() -> (code: String)
    ensures
        is_code_text(code@),
{
    random_code()
}

#[verifier::external_type_specification]
#[verifier::external_body]
pub struct ExJsonError(serde_json::Error);

/// The characters that a JSON string literal cannot hold as they are.
pub open spec fn needs_json_escape(c: char) -> bool {
    c == '"' || c == '\\' || (c as u32) < 0x20
}

/// A lower-case hexadecimal digit.
pub open spec fn hex_digit(n: int) -> char {
    if n < 10 {
        (48 + n) as char
    } else {
        (87 + n) as char
    }
}

/// How `serde_json` writes one character inside a string literal: `"` and
/// `\` behind a backslash; backspace, tab, line feed, form feed and carriage
/// return as `\b`, `\t`, `\n`, `\f`, `\r`; the other characters below 0x20 as
/// `\u00` and two lower-case hexadecimal digits; every other character as it is.
pub open spec fn escape_char(c: char) -> Seq<char> {
    if c == '"' {
        seq!['\\', '"']
    } else if c == '\\' {
        seq!['\\', '\\']
    } else if c == '\x08' {
        seq!['\\', 'b']
    } else if c == '\t' {
        seq!['\\', 't']
    } else if c == '\n' {
        seq!['\\', 'n']
    } else if c == '\x0c' {
        seq!['\\', 'f']
    } else if c == '\r' {
        seq!['\\', 'r']
    } else if (c as u32) < 0x20 {
        seq!['\\', 'u', '0', '0', hex_digit((c as int) / 16), hex_digit((c as int) % 16)]
    } else {
        seq![c]
    }
}

/// The text of a JSON string literal's contents, each character escaped as
/// `escape_char` says.
pub open spec fn json_escape(text: Seq<char>) -> Seq<char>
    decreases text.len(),
{
    if text.len() == 0 {
        seq![]
    } else {
        json_escape(text.drop_last()) + escape_char(text.last())
    }
}

/// No character of the text needs escaping in a JSON string.
pub open spec fn needs_no_escape(text: Seq<char>) -> bool {
    forall|i: int| 0 <= i < text.len() ==> !needs_json_escape(#[trigger] text[i])
}

/// A text with nothing to escape is written as it is.
pub proof fn lemma_json_escape_plain(text: Seq<char>)
    requires
        needs_no_escape(text),
    ensures
        json_escape(text) == text,
    decreases text.len(),
{
    if text.len() > 0 {
        let init = text.drop_last();
        assert forall|i: int| 0 <= i < init.len() implies !needs_json_escape(#[trigger] init[i]) by {
            assert(init[i] == text[i]);
        }
        lemma_json_escape_plain(init);
        assert(!needs_json_escape(text[text.len() - 1]));
        assert(init.push(text.last()) == text);
    }
}

/// The pretty JSON text of a list holding one string.
pub open spec fn pretty_string_list(item: Seq<char>) -> Seq<char> {
    "[\n  \""@ + json_escape(item) + "\"\n]"@
}

/// `serde_json::to_string_pretty` on a one-element array of strings. Its
/// source writes into a `Vec`, which never fails, and a string never fails to
/// serialize, so the call succeeds. It writes `[`, a newline, two spaces of
/// indent, the string in quotes escaped as `escape_char` says (the `ESCAPE`
/// table and `write_char_escape`), a newline and `]`. The contract claims
/// success and exactly that text.
#[verifier::external_body]
fn pretty_json_list(item: &String) -> (r: Result<String, serde_json::Error>)
    ensures
        r is Ok,
        r matches Ok(t) ==> t@ == pretty_string_list(item@),
{
    serde_json::to_string_pretty(&[item])
}

/// One member of a pretty JSON object whose value is a string, indented by
/// two, name and value escaped.
pub open spec fn pretty_member(field: (Seq<char>, Seq<char>)) -> Seq<char> {
    "  \""@ + json_escape(field.0) + "\": \""@ + json_escape(field.1) + "\""@
}

/// The members of a pretty JSON object, one per line, separated by commas.
pub open spec fn pretty_members(fields: Seq<(Seq<char>, Seq<char>)>) -> Seq<char>
    decreases fields.len(),
{
    if fields.len() == 0 {
        seq![]
    } else if fields.len() == 1 {
        pretty_member(fields[0])
    } else {
        pretty_members(fields.drop_last()) + ",\n"@ + pretty_member(fields.last())
    }
}

/// The pretty JSON text of an object of strings, its members in the given
/// order: `{}` when it has none.
pub open spec fn pretty_object_text(fields: Seq<(Seq<char>, Seq<char>)>) -> Seq<char> {
    if fields.len() == 0 {
        "{}"@
    } else {
        "{\n"@ + pretty_members(fields) + "\n}"@
    }
}

/// The text is the pretty JSON text of the map of strings with the given
/// fields, its members in some order of the fields.
pub open spec fn is_pretty_map_text(text: Seq<char>, fields: Seq<(Seq<char>, Seq<char>)>) -> bool {
    exists|order: Seq<(Seq<char>, Seq<char>)>|
        #![trigger order.to_multiset()]
        order.to_multiset() == fields.to_multiset() && text == pretty_object_text(order)
}

/// `serde_json::to_string_pretty` on a `std::collections::HashMap` holding
/// the given fields (whose names are distinct, so each field is one entry).
/// The source writes into a `Vec`, which never fails, and maps with string
/// names never fail to serialize, so the call succeeds. It writes `{}` for an
/// empty map; otherwise `{`, then each entry on a line of its own, indented
/// by two, as the quoted name, `: ` and the quoted value, the lines separated
/// by commas, then a newline and `}`; names and values escaped as
/// `escape_char` says. The entries come in the map's iteration order, which
/// a per-process random seed decides. The contract claims success and
/// `is_pretty_map_text`: that text for some order of the fields; which order
/// it leaves unsaid.
#[verifier::external_body]
fn pretty_json_map(fields: &Vec<(String, String)>) -> (r: Result<String, serde_json::Error>)
    requires
        crate::query::keys_distinct(pair_views(fields@)),
    ensures
        r is Ok,
        r matches Ok(t) ==> is_pretty_map_text(t@, pair_views(fields@)),
{
    serde_json::to_string_pretty(&fields.iter().cloned().collect::<std::collections::HashMap<String, String>>())
}

/// The contents of a new room's file: the room's configuration, the list of
/// players, an empty game log and no winner.
pub open spec fn room_file_text(config: Seq<char>, players: Seq<char>) -> Seq<char> {
    "{\n\t\"config.toml\": "@ + config + ",\n\t\"players\": "@ + players + ",\n\t\"game_log\": [],\n\t\"winner\": \"\"\n}"@
}

/// The answer to a room's creator: the room's code and the creator's code.
pub open spec fn room_reply_text(room_code: Seq<char>, user_code: Seq<char>) -> Seq<char> {
    "room_code="@ + room_code + "&user_code="@ + user_code
}

/// A room about to be created.
pub struct NewRoom {
    pub room_code: String,
    pub user_code: String,
    /// The pretty JSON text of the room's configuration.
    pub config: String,
    /// What the room's file is to hold.
    pub file_text: String,
    /// The body of the answer.
    pub reply: String,
}

proof fn lemma_code_needs_no_escape(code: Seq<char>)
    requires
        is_code_text(code),
    ensures
        needs_no_escape(code),
{
    assert forall|i: int| 0 <= i < code.len() implies !needs_json_escape(#[trigger] code[i]) by {
        assert(code[i] == '-' || ('0' <= code[i] <= '9') || ('a' <= code[i] <= 'f'));
    }
}

/// Creates a room for a create request's query fields: fresh codes for the
/// room and its first player, the room's configuration (the fields as pretty
/// JSON), the file's contents and the answer's body.
pub fn handle_create_room_request(query: &QueryMap) -> (room: NewRoom)
    ensures
        is_code_text(room.room_code@),
        is_code_text(room.user_code@),
        is_pretty_map_text(room.config@, query.pairs()),
        room.file_text@ == room_file_text(room.config@, pretty_string_list(room.user_code@)),
        pretty_string_list(room.user_code@) == "[\n  \""@ + room.user_code@ + "\"\n]"@,
        room.reply@ == room_reply_text(room.room_code@, room.user_code@),
{
    let room_code = random_code();
    let user_code = random_code();
    let fields = query.entries();
    let room_config = match pretty_json_map(fields) {
        Ok(c) => c,
        Err(_) => {
            assert(false);
            String::new()
        },
    };
    proof {
        lemma_code_needs_no_escape(user_code@);
        lemma_json_escape_plain(user_code@);
    }
    let users = match pretty_json_list(&user_code) {
        Ok(u) => u,
        Err(_) => {
            assert(false);
            String::new()
        },
    };
    new_room(room_config, room_code, user_code, users.as_str())
}

/// Assembles a new room from its configuration text, its codes and the JSON
/// text of its list of players.
pub fn new_room(config: String, room_code: String, user_code: String, players: &str) -> (room: NewRoom)
    ensures
        room.room_code == room_code,
        room.user_code == user_code,
        room.config == config,
        room.file_text@ == room_file_text(config@, players@),
        room.reply@ == room_reply_text(room_code@, user_code@),
{
    let mut file_text = String::from_str("{\n\t\"config.toml\": ");
    file_text.append(config.as_str());
    file_text.append(",\n\t\"players\": ");
    file_text.append(players);
    file_text.append(",\n\t\"game_log\": [],\n\t\"winner\": \"\"\n}");
    let mut reply = String::from_str("room_code=");
    reply.append(room_code.as_str());
    reply.append("&user_code=");
    reply.append(user_code.as_str());
    NewRoom { room_code, user_code, config, file_text, reply }
}

/// The first index of a member name depends on the names alone.
proof fn lemma_first_index_by_names(a: Seq<(String, Json)>, b: Seq<(String, Json)>, key: Seq<char>)
    requires
        a.len() == b.len(),
        forall|j: int| 0 <= j < a.len() ==> (#[trigger] a[j]).0 == b[j].0,
    ensures
        first_member_index(a, key) == first_member_index(b, key),
    decreases a.len(),
{
    if a.len() > 0 {
        let (ia, ib) = (a.drop_last(), b.drop_last());
        assert forall|j: int| 0 <= j < ia.len() implies (#[trigger] ia[j]).0 == ib[j].0 by {
            assert(ia[j] == a[j] && ib[j] == b[j]);
        }
        lemma_first_index_by_names(ia, ib, key);
        assert(a[a.len() - 1].0 == b[b.len() - 1].0);
    }
}

/// Moves are kept in the order they were made: after two moves are recorded
/// in turn, the game log is the old log followed by the first move and then
/// the second.
pub proof fn law_moves_in_order(d0: Json, d1: Json, d2: Json, first: Seq<char>, second: Seq<char>)
    requires
        appends_text(d0, d1, "game_log"@, first),
        appends_text(d1, d2, "game_log"@, second),
    ensures
        d0.member("game_log"@) matches Some(Json::Array(log0)) && d2.member("game_log"@) matches Some(
            Json::Array(log2),
        ) && log2@.len() == log0@.len() + 2 && log2@.take(log0@.len() as int) == log0@
            && log2@[log0@.len() as int].text() == Some(first) && log2@[log0@.len() as int + 1].text() == Some(
            second,
        ),
{
    let i = d0.member_index("game_log"@).unwrap();
    let (m0, m1) = (d0.members(), d1.members());
    assert forall|j: int| 0 <= j < m0.len() implies (#[trigger] m0[j]).0 == m1[j].0 by {
        if j != i {
            assert(m1[j] == m0[j]);
        }
    }
    lemma_first_index_by_names(m0, m1, "game_log"@);
    assert(d1.member_index("game_log"@) == Some(i));
    let log0 = match m0[i].1 {
        Json::Array(v) => v@,
        _ => seq![],
    };
    let log1 = match m1[i].1 {
        Json::Array(v) => v@,
        _ => seq![],
    };
    let log2 = match d2.members()[i].1 {
        Json::Array(v) => v@,
        _ => seq![],
    };
    assert(log1.take(log0.len() as int) == log0);
    assert(log2.take(log1.len() as int) == log1);
    assert(log2[log0.len() as int] == log1[log0.len() as int]);
    assert(log2.take(log0.len() as int) == log0) by {
        assert forall|k: int| 0 <= k < log0.len() implies log2.take(log0.len() as int)[k] == log0[k] by {
            assert(log2[k] == log1[k]);
            assert(log1[k] == log0[k]);
        }
    }
    let (n0, n2) = (d0.members(), d2.members());
    assert forall|j: int| 0 <= j < n0.len() implies (#[trigger] n0[j]).0 == n2[j].0 by {
        if j != i {
            assert(m1[j] == m0[j]);
            assert(d2.members()[j] == m1[j]);
        }
    }
    lemma_first_index_by_names(n0, n2, "game_log"@);
}

/// Every member other than the one at index `i` is as it was, and the names
/// are as they were.
pub open spec fn only_member_changed(before: Json, after: Json, i: int) -> bool {
    &&& after.members().len() == before.members().len()
    &&& forall|j: int| 0 <= j < before.members().len() && j != i ==> #[trigger] after.members()[j] == before.members()[j]
    &&& after.members()[i].0 == before.members()[i].0
}

/// Where one member of an object changes, every other member name finds the
/// value it found before.
proof fn lemma_other_members_kept(before: Json, after: Json, i: int, changed: Seq<char>, other: Seq<char>)
    requires
        before is Object,
        after is Object,
        before.member_index(changed) == Some(i),
        only_member_changed(before, after, i),
        other != changed,
    ensures
        after.member(other) == before.member(other),
{
    let (m0, m1) = (before.members(), after.members());
    assert forall|j: int| 0 <= j < m0.len() implies (#[trigger] m0[j]).0 == m1[j].0 by {
        if j != i {
            assert(m1[j] == m0[j]);
        }
    }
    lemma_first_index_by_names(m0, m1, other);
    if let Some(k) = first_member_index(m0, other) {
        crate::json::lemma_first_member_index(m0, other);
        crate::json::lemma_first_member_index(m0, changed);
        assert(m0[k].0@ == other);
        assert(m0[i].0@ == changed);
        assert(k != i);
        assert(m1[k] == m0[k]);
    }
}

/// Recording a move changes nothing but the game log.
pub proof fn law_move_changes_only_game_log(before: Json, after: Json, movement: Seq<char>, other: Seq<char>)
    requires
        appends_text(before, after, "game_log"@, movement),
        other != "game_log"@,
    ensures
        after.member(other) == before.member(other),
{
    lemma_other_members_kept(before, after, before.member_index("game_log"@).unwrap(), "game_log"@, other);
}

/// Declaring a winner changes nothing but the winner.
pub proof fn law_winner_changes_only_winner(before: Json, after: Json, player: Seq<char>, other: Seq<char>)
    requires
        sets_text(before, after, "winner"@, player),
        other != "winner"@,
    ensures
        after.member(other) == before.member(other),
{
    lemma_other_members_kept(before, after, before.member_index("winner"@).unwrap(), "winner"@, other);
}

/// A code holds no `/`, `&`, `=` or `%`.
proof fn lemma_code_chars(code: Seq<char>)
    requires
        is_code_text(code),
    ensures
        forall|i: int| 0 <= i < code.len() ==> (#[trigger] code[i]) != '/' && code[i] != '&' && code[i] != '='
            && code[i] != '%',
        !code.contains('&'),
        !code.contains('%'),
{
    assert forall|i: int| 0 <= i < code.len() implies (#[trigger] code[i]) != '/' && code[i] != '&' && code[i]
        != '=' && code[i] != '%' by {
        assert(code[i] == '-' || ('0' <= code[i] <= '9') || ('a' <= code[i] <= 'f'));
    }
}

/// The field in `name=` followed by a code is the name and the code.
proof fn lemma_code_piece(name: Seq<char>, code: Seq<char>)
    requires
        name.len() == 9,
        is_code_text(code),
    ensures
        piece_field(name.push('=') + code) == Some((name, code)),
{
    lemma_code_chars(code);
    let p = name.push('=') + code;
    assert(p.len() == 46);
    assert(p[9] == '=');
    assert forall|i: int| 9 < i <= 44 implies p[i] != '=' by {
        assert(p[i] == code[i - 10]);
    }
    lemma_last_eq_found(p, 9, 44);
    assert(p.subrange(0, 9) == name);
    assert(p.subrange(10, 46) == code);
}

/// The answer to a room's creator reads back through the query parser as
/// exactly its two fields: `room_code` with the room's code and `user_code`
/// with the creator's code.
pub proof fn law_create_reply_reads_back(room: Seq<char>, user: Seq<char>)
    requires
        is_code_text(room),
        is_code_text(user),
    ensures
        query_fields(after_last_query_mark(room_reply_text(room, user))) == seq![
            ("room_code"@, room),
            ("user_code"@, user),
        ],
        query_of_fields(query_fields(after_last_query_mark(room_reply_text(room, user)))) == Some(
            Map::<Seq<char>, Seq<char>>::empty().insert("room_code"@, room).insert("user_code"@, user),
        ),
        regex_compiles(query_field_pattern()) ==> parsed_query(after_last_query_mark(room_reply_text(room, user)))
            == Some(Map::<Seq<char>, Seq<char>>::empty().insert("room_code"@, room).insert("user_code"@, user)),
{
    reveal_strlit("room_code=");
    reveal_strlit("&user_code=");
    reveal_strlit("room_code");
    reveal_strlit("user_code");
    lemma_code_chars(room);
    lemma_code_chars(user);
    let rn = "room_code"@;
    let un = "user_code"@;
    assert("room_code="@ == rn.push('='));
    assert("&user_code="@ == seq!['&'] + un.push('='));
    let x = rn.push('=') + room;
    let y = un.push('=') + user;
    let reply = room_reply_text(room, user);
    assert(reply == x.push('&') + y);
    assert forall|j: int| 0 <= j < reply.len() implies !#[trigger] mark_at(reply, j) by {
        if j < 10 {
            assert(reply[j] == rn.push('=')[j]);
        } else if j < 46 {
            assert(reply[j] == room[j - 10]);
        } else if j == 46 {
        } else if j < 57 {
            assert(reply[j] == un.push('=')[j - 47]);
        } else {
            assert(reply[j] == user[j - 57]);
        }
    }
    law_query_part_without_mark(reply);
    assert(!x.contains('&')) by {
        if x.contains('&') {
            let k = choose|k: int| 0 <= k < x.len() && x[k] == '&';
            if k >= 10 {
                assert(x[k] == room[k - 10]);
            }
        }
    }
    assert(!y.contains('&')) by {
        if y.contains('&') {
            let k = choose|k: int| 0 <= k < y.len() && y[k] == '&';
            if k >= 10 {
                assert(y[k] == user[k - 10]);
            }
        }
    }
    let e = Seq::<char>::empty();
    lemma_split_append_plain(e, x, '&');
    assert(e + x == x);
    assert(split_on(e, '&') == seq![e]);
    assert(split_on(x, '&') == seq![x]);
    assert(split_on(x.push('&'), '&') == seq![x, e]) by {
        assert(x.push('&').drop_last() == x);
    }
    lemma_split_append_plain(x.push('&'), y, '&');
    assert(e + y == y);
    assert(split_on(reply, '&') == seq![x, y]);
    lemma_code_piece(rn, room);
    lemma_code_piece(un, user);
    let pieces = seq![x, y];
    assert(pieces.drop_last() == seq![x]);
    assert(seq![x].drop_last() == Seq::<Seq<char>>::empty());
    assert(seq![x].last() == x);
    assert(fields_of_pieces(Seq::<Seq<char>>::empty()) == Seq::<(Seq<char>, Seq<char>)>::empty());
    assert(Seq::<(Seq<char>, Seq<char>)>::empty().push((rn, room)) == seq![(rn, room)]);
    assert(fields_of_pieces(seq![x]) == seq![(rn, room)]);
    assert(pieces.last() == y);
    assert(seq![(rn, room)].push((un, user)) == seq![(rn, room), (un, user)]);
    let fields = seq![(rn, room), (un, user)];
    assert(fields_of_pieces(pieces) == fields);
    assert forall|i: int| 0 <= i < fields.len() implies !(#[trigger] fields[i]).1.contains('%') by {}
    law_query_without_percent(fields);
    assert(fields.drop_last() == seq![(rn, room)]);
    assert(seq![(rn, room)].drop_last() == Seq::<(Seq<char>, Seq<char>)>::empty());
    assert(seq![(rn, room)].last() == (rn, room));
    assert(fields.last() == (un, user));
    assert(map_of_pairs(Seq::<(Seq<char>, Seq<char>)>::empty()) == Map::<Seq<char>, Seq<char>>::empty());
    assert(map_of_pairs(seq![(rn, room)]) == Map::<Seq<char>, Seq<char>>::empty().insert(rn, room));
    assert(map_of_pairs(fields) == Map::<Seq<char>, Seq<char>>::empty().insert(rn, room).insert(un, user));
}

/// The parsed query names `t` in its `type` field.
pub open spec fn names_type(fields: Option<Map<Seq<char>, Seq<char>>>, t: Seq<char>) -> bool {
    fields matches Some(m) && m.contains_key("type"@) && m["type"@] == t
}

/// `GET` only reads or creates rooms, `POST` only records moves and winners,
/// `CONNECT` always joins, and any other method is refused.
pub proof fn law_methods_route_apart(fields: Option<Map<Seq<char>, Seq<char>>>)
    ensures
        route_kind(RequestMethod::Get, fields) == RouteKind::View || route_kind(RequestMethod::Get, fields)
            == RouteKind::Create || route_kind(RequestMethod::Get, fields) == RouteKind::BadRequest,
        route_kind(RequestMethod::Post, fields) == RouteKind::Move || route_kind(RequestMethod::Post, fields)
            == RouteKind::Win || route_kind(RequestMethod::Post, fields) == RouteKind::BadRequest,
        route_kind(RequestMethod::Connect, fields) == RouteKind::Join,
        route_kind(RequestMethod::Other, fields) == RouteKind::BadRequest,
{
}

/// A request is routed to a handler other than join only where its query
/// parses and names that handler in its `type` field; a query without a
/// `type` field is refused whatever the method but `CONNECT`.
pub proof fn law_route_follows_type(method: RequestMethod, fields: Option<Map<Seq<char>, Seq<char>>>)
    ensures
        route_kind(method, fields) == RouteKind::View ==> names_type(fields, "view"@),
        route_kind(method, fields) == RouteKind::Create ==> names_type(fields, "create"@),
        route_kind(method, fields) == RouteKind::Move ==> names_type(fields, "move"@),
        route_kind(method, fields) == RouteKind::Win ==> names_type(fields, "win"@),
        (fields matches Some(m) && !m.contains_key("type"@)) && method != RequestMethod::Connect ==> route_kind(method, fields)
            == RouteKind::BadRequest,
        fields is None && method != RequestMethod::Connect ==> route_kind(method, fields) == RouteKind::BadRequest,
{
}

} // verus!
