use site_server::json::Json;
use site_server::particles::{
    add_player, handle_create_room_request, handle_join_request, handle_move_request,
    handle_view_request, handle_win_request, new_code, new_room, particles_request, record_move,
    record_winner, ParticlesRoute, RequestMethod, RoomUpdate,
};
use site_server::query::{parse_query, Query};
use site_server::static_site::{abs_path, cookie_header, get_file, requested_page, site_request};

fn s(t: &str) -> Json {
    Json::Str(t.to_string())
}

fn obj(members: Vec<(&str, Json)>) -> Json {
    Json::Object(members.into_iter().map(|(k, v)| (k.to_string(), v)).collect())
}

fn room() -> Json {
    obj(vec![
        ("config.toml", obj(vec![("type", s("create"))])),
        ("game_log", Json::Array(vec![s("a1")])),
        ("players", Json::Array(vec![s("p1")])),
        ("winner", s("")),
    ])
}

fn texts(v: &Json) -> Vec<String> {
    match v {
        Json::Array(items) => items
            .iter()
            .map(|i| match i {
                Json::Str(t) => t.clone(),
                _ => panic!("not a string"),
            })
            .collect(),
        _ => panic!("not an array"),
    }
}

fn rewrite(u: RoomUpdate) -> (Json, bool) {
    match u {
        RoomUpdate::Rewrite { document, remove_first } => (document, remove_first),
        RoomUpdate::Missing => panic!("missing"),
    }
}

#[test]
fn routes_particles_requests() {
    assert!(matches!(particles_request(RequestMethod::Get, "/particles/?type=view&room_code=r"), ParticlesRoute::View(_)));
    assert!(matches!(particles_request(RequestMethod::Get, "/particles/?type=create&size=3"), ParticlesRoute::Create(_)));
    assert!(matches!(particles_request(RequestMethod::Get, "/particles/?type=move"), ParticlesRoute::BadRequest));
    assert!(matches!(particles_request(RequestMethod::Get, "/particles/?room_code=r"), ParticlesRoute::BadRequest));
    assert!(matches!(particles_request(RequestMethod::Post, "/particles/?type=move&move=e4"), ParticlesRoute::Move(_)));
    assert!(matches!(particles_request(RequestMethod::Post, "/particles/?type=win"), ParticlesRoute::Win(_)));
    assert!(matches!(particles_request(RequestMethod::Post, "/particles/?type=view"), ParticlesRoute::BadRequest));
    assert!(matches!(particles_request(RequestMethod::Post, "/particles/?type=%FF"), ParticlesRoute::BadRequest));
    assert!(matches!(particles_request(RequestMethod::Connect, "/particles/"), ParticlesRoute::Join));
    assert!(matches!(particles_request(RequestMethod::Other, "/particles/?type=view"), ParticlesRoute::BadRequest));
    match particles_request(RequestMethod::Get, "/particles/?type=view&room_code=r%20") {
        ParticlesRoute::View(q) => assert_eq!(q.get("room_code").map(|x| x.as_str()), Some("r ")),
        _ => panic!("not a view"),
    }
}

#[test]
fn reads_request_fields() {
    let q = parse_query(Some("room_code=r&player_code=p&move=e4")).unwrap();
    assert_eq!(handle_view_request(&q), Ok("r".to_string()));
    let m = handle_move_request(&q).unwrap();
    assert_eq!((m.room_code.as_str(), m.player_code.as_str(), m.movement.as_str()), ("r", "p", "e4"));
    let w = handle_win_request(&q).unwrap();
    assert_eq!((w.room_code.as_str(), w.player_code.as_str()), ("r", "p"));
    let partial = parse_query(Some("room_code=r")).unwrap();
    assert_eq!(handle_move_request(&partial).err(), Some(400));
    assert_eq!(handle_win_request(&partial).err(), Some(400));
    let none = parse_query(Some("x=y")).unwrap();
    assert_eq!(handle_view_request(&none), Err(400));
    assert_eq!(handle_join_request("/particles/?room_code=abc"), Ok("abc".to_string()));
    assert_eq!(handle_join_request("/particles/?code=abc"), Err(400));
}

#[test]
fn move_is_appended_to_game_log() {
    let (doc, remove) = rewrite(record_move(room(), "b2"));
    assert!(!remove);
    assert_eq!(texts(doc.get("game_log").unwrap()), vec!["a1", "b2"]);
    assert_eq!(texts(doc.get("players").unwrap()), vec!["p1"]);
    assert_eq!(doc.get("winner").unwrap().as_str().map(|t| t.as_str()), Some(""));
    let (doc, _) = rewrite(record_move(doc, "c3"));
    assert_eq!(texts(doc.get("game_log").unwrap()), vec!["a1", "b2", "c3"]);
}

#[test]
fn move_without_game_log() {
    assert!(matches!(record_move(obj(vec![("players", Json::Array(vec![]))]), "x"), RoomUpdate::Missing));
    assert!(matches!(record_move(Json::Null, "x"), RoomUpdate::Missing));
    let (doc, remove) = rewrite(record_move(obj(vec![("game_log", s("oops"))]), "x"));
    assert!(remove);
    assert_eq!(doc.get("game_log").unwrap().as_str().map(|t| t.as_str()), Some("oops"));
}

#[test]
fn winner_is_set() {
    let (doc, remove) = rewrite(record_winner(room(), "p1"));
    assert!(!remove);
    assert_eq!(doc.get("winner").unwrap().as_str().map(|t| t.as_str()), Some("p1"));
    assert_eq!(texts(doc.get("game_log").unwrap()), vec!["a1"]);
    let (doc, _) = rewrite(record_winner(obj(vec![("winner", Json::Null)]), "q"));
    assert_eq!(doc.get("winner").unwrap().as_str().map(|t| t.as_str()), Some("q"));
    assert!(matches!(record_winner(obj(vec![]), "p1"), RoomUpdate::Missing));
    assert!(matches!(record_winner(Json::Array(vec![]), "p1"), RoomUpdate::Missing));
}

#[test]
fn player_is_added() {
    let (doc, remove) = rewrite(add_player(room(), "p2"));
    assert!(!remove);
    assert_eq!(texts(doc.get("players").unwrap()), vec!["p1", "p2"]);
    let (doc, remove) = rewrite(add_player(obj(vec![("winner", s(""))]), "p2"));
    assert!(remove);
    assert!(doc.get("players").is_none());
    let (_, remove) = rewrite(add_player(obj(vec![("players", Json::Null)]), "p2"));
    assert!(remove);
    let (_, remove) = rewrite(add_player(Json::Bool(true), "p2"));
    assert!(remove);
}

fn is_code(c: &str) -> bool {
    c.len() == 36
        && c.chars().enumerate().all(|(i, ch)| {
            if i == 8 || i == 13 || i == 18 || i == 23 {
                ch == '-'
            } else {
                ch.is_ascii_digit() || ('a'..='f').contains(&ch)
            }
        })
}

#[test]
fn codes_are_uuids() {
    let a = new_code();
    let b = new_code();
    assert!(is_code(&a));
    assert!(is_code(&b));
    assert_ne!(a, b);
}

#[test]
fn creates_room_file() {
    let q = parse_query(Some("type=create&size=3")).unwrap();
    let r = handle_create_room_request(&q);
    assert!(is_code(&r.room_code));
    assert!(is_code(&r.user_code));
    assert!(
        r.config == "{\n  \"type\": \"create\",\n  \"size\": \"3\"\n}"
            || r.config == "{\n  \"size\": \"3\",\n  \"type\": \"create\"\n}"
    );
    let expected = format!(
        "{{\n\t\"config.toml\": {},\n\t\"players\": [\n  \"{}\"\n],\n\t\"game_log\": [],\n\t\"winner\": \"\"\n}}",
        r.config, r.user_code
    );
    assert_eq!(r.file_text, expected);
    assert_eq!(r.reply, format!("room_code={}&user_code={}", r.room_code, r.user_code));
}

#[test]
fn creates_room_with_one_or_no_fields() {
    let q = parse_query(Some("type=create")).unwrap();
    assert_eq!(handle_create_room_request(&q).config, "{\n  \"type\": \"create\"\n}");
    let empty = parse_query(Some("")).unwrap();
    let r = handle_create_room_request(&empty);
    assert_eq!(r.config, "{}");
    assert!(r.file_text.starts_with("{\n\t\"config.toml\": {},\n"));
}

fn manifest() -> Json {
    obj(vec![
        ("/", obj(vec![("mimeType", s("text/html")), ("defaultPath", s("index.html"))])),
        (
            "/secret page",
            obj(vec![
                ("mimeType", s("text/html")),
                ("defaultPath", s("plain.html")),
                ("secondaryPath", s("special.html")),
                ("secondaryCondition", s("unlocked=yes")),
            ]),
        ),
        ("/bad", obj(vec![("mimeType", s("text/css")), ("defaultPath", s("a.css")), ("secondaryCondition", Json::Bool(true))])),
        ("/nomime", obj(vec![("defaultPath", s("a.css"))])),
        ("/numpath", obj(vec![("mimeType", s("text/css")), ("defaultPath", Json::Number("3".to_string()))])),
    ])
}

fn headers(list: &[(&str, &str)]) -> Vec<(String, String)> {
    list.iter().map(|(f, v)| (f.to_string(), v.to_string())).collect()
}

#[test]
fn site_pages() {
    let m = manifest();
    let none = headers(&[]);
    let f = site_request(&m, "/", &none).unwrap();
    assert_eq!((f.path.as_str(), f.mime_type.as_str()), ("index.html", "text/html"));
    let f = site_request(&m, "/secret page", &none).unwrap();
    assert_eq!(f.path, "plain.html");
    let with = headers(&[("Host", "x"), ("Cookie", "a=b; unlocked=yes")]);
    assert_eq!(site_request(&m, "/secret page", &with).unwrap().path, "special.html");
    let other = headers(&[("Cookie", "unlocked=no"), ("Cookie", "unlocked=yes")]);
    assert_eq!(site_request(&m, "/secret page", &other).unwrap().path, "plain.html");
    let lower = headers(&[("cookie", "unlocked=yes")]);
    assert_eq!(site_request(&m, "/secret page", &lower).unwrap().path, "plain.html");
    assert_eq!(site_request(&m, "/missing", &none).err(), Some(404));
    assert_eq!(site_request(&m, "/bad", &none).err(), Some(500));
    assert_eq!(site_request(&m, "/nomime", &none).err(), Some(500));
    assert_eq!(site_request(&m, "/numpath", &none).err(), Some(500));
    assert_eq!(site_request(&Json::Null, "/", &none).err(), Some(404));
}

#[test]
fn site_helpers() {
    assert_eq!(abs_path(), "./maddie_website");
    assert_eq!(requested_page("/secret%20page"), Ok("/secret page".to_string()));
    assert_eq!(requested_page("/plain"), Ok("/plain".to_string()));
    assert_eq!(requested_page("/%C3%28"), Err(400));
    let h = headers(&[("Accept", "*"), ("Cookie", "k=v")]);
    assert_eq!(cookie_header(&h).map(|c| c.as_str()), Some("k=v"));
    assert!(cookie_header(&headers(&[("Accept", "*")])).is_none());
    let entry = obj(vec![("mimeType", s("image/png")), ("secondaryPath", s("b.png"))]);
    let f = get_file(&entry, "secondaryPath").unwrap();
    assert_eq!((f.path.as_str(), f.mime_type.as_str()), ("b.png", "image/png"));
    assert_eq!(get_file(&entry, "defaultPath").err(), Some(500));
}

#[test]
fn assembles_room() {
    let r = new_room("{}".to_string(), "r1".to_string(), "u1".to_string(), "[\"u1\"]");
    assert_eq!(r.room_code, "r1");
    assert_eq!(r.user_code, "u1");
    assert_eq!(r.config, "{}");
    assert_eq!(
        r.file_text,
        "{\n\t\"config.toml\": {},\n\t\"players\": [\"u1\"],\n\t\"game_log\": [],\n\t\"winner\": \"\"\n}"
    );
    assert_eq!(r.reply, "room_code=r1&user_code=u1");
}

#[test]
fn room_config_escapes_strings() {
    let q = parse_query(Some("a=%22x%0A%01%5C")).unwrap();
    let r = handle_create_room_request(&q);
    assert_eq!(r.config, "{\n  \"a\": \"\\\"x\\n\\u0001\\\\\"\n}");
}

#[test]
fn create_reply_reads_back() {
    let q = parse_query(Some("type=create")).unwrap();
    let r = handle_create_room_request(&q);
    let reply: &str = r.reply.as_str();
    let m = reply.query().unwrap();
    assert_eq!(m.len(), 2);
    assert_eq!(m.get("room_code"), Some(&r.room_code));
    assert_eq!(m.get("user_code"), Some(&r.user_code));
}
