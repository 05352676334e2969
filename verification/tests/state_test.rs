use gossamer::state::{Error, State};

fn with_subnet() -> (State, u32) {
    let mut st = State::new("Hub.A".to_string());
    let sn = st.subnet_add("dev".to_string()).ok().unwrap();
    (st, sn)
}

#[test]
fn new_state_holds_the_local_server() {
    let st = State::new("Hub.A".to_string());
    assert_eq!(st.server_count(), 1);
    assert_eq!(st.server_by_id(0).name, "Hub.A");
    assert_eq!(st.server_by_id(0).lname, "hub.a");
    assert_eq!(st.server_by_name("hub.a"), Some(0));
    assert_eq!(st.server_by_name("Hub.A"), None);
    assert!(st.server_by_id(0).link.is_none());
    assert!(st.client_iter().is_empty());
    assert!(st.subnet_iter().is_empty());
}

#[test]
fn client_is_found_by_lower_case_nick() {
    let (mut st, sn) = with_subnet();
    let id = st
        .client_add("Alex".to_string(), "a".to_string(), "h".to_string(), "G".to_string(), 0, sn)
        .ok()
        .unwrap();
    assert_eq!(id, 0);
    assert_eq!(st.client_by_nick(sn, "alex"), Some(id));
    assert_eq!(st.client_by_nick(sn, "Alex"), None);
    let c = st.client_by_id(id);
    assert_eq!(c.nick, "Alex");
    assert_eq!(c.lnick, "alex");
    assert_eq!(c.server, 0);
    assert!(st.server_by_id(0).clients.contains(&id));
    assert!(st.subnet_by_id(sn).clients.contains(&id));
}

#[test]
fn nick_taken_in_any_case() {
    let (mut st, sn) = with_subnet();
    let id = st
        .client_add("alex".to_string(), "a".to_string(), "h".to_string(), "g".to_string(), 0, sn)
        .ok()
        .unwrap();
    let res = st.client_add("ALEX".to_string(), "b".to_string(), "h".to_string(), "g".to_string(), 0, sn);
    assert!(matches!(res, Err(Error::NickAlreadyInUse(x)) if x == id));
    assert_eq!(st.client_iter().len(), 1);
}

#[test]
fn removing_a_client_frees_its_nick() {
    let (mut st, sn) = with_subnet();
    let id = st
        .client_add("alex".to_string(), "a".to_string(), "h".to_string(), "g".to_string(), 0, sn)
        .ok()
        .unwrap();
    st.client_remove(id);
    assert_eq!(st.client_by_nick(sn, "alex"), None);
    assert!(st.client_iter().is_empty());
    assert!(!st.server_by_id(0).clients.contains(&id));
    let again = st
        .client_add("alex".to_string(), "a".to_string(), "h".to_string(), "g".to_string(), 0, sn)
        .ok()
        .unwrap();
    assert_eq!(again, 1);
}

#[test]
fn subnet_names_are_checked_as_given() {
    let mut st = State::new("hub".to_string());
    let a = st.subnet_add("dev".to_string()).ok().unwrap();
    assert!(matches!(st.subnet_add("dev".to_string()), Err(Error::SubnetNameAlreadyInUse(x)) if x == a));
    let b = st.subnet_add("Dev".to_string()).ok().unwrap();
    assert_eq!(b, 1);
    assert_eq!(st.subnet_by_name("dev"), Some(b));
    assert_eq!(st.subnet_iter().len(), 2);
}

#[test]
fn servers_link_below_hubs() {
    let mut st = State::new("hub.a".to_string());
    let b = st.server_add("Hub.B".to_string(), 0).ok().unwrap();
    let c = st.server_add("hub.c".to_string(), b).ok().unwrap();
    assert_eq!((b, c), (1, 2));
    let lb = st.server_by_id(b).link.unwrap();
    assert_eq!((lb.hub, lb.route), (0, b));
    let lc = st.server_by_id(c).link.unwrap();
    assert_eq!((lc.hub, lc.route), (b, b));
    assert!(st.server_by_id(0).downlinks.contains(&b));
    assert!(st.server_by_id(b).downlinks.contains(&c));
    assert_eq!(st.server_by_name("hub.b"), Some(b));
    let dup = st.server_add("HUB.C".to_string(), 0);
    assert!(matches!(dup, Err(Error::ServerNameAlreadyExists(x)) if x == c));
    assert_eq!(st.server_count(), 3);
}

#[test]
fn netsplit_reaches_the_whole_subtree() {
    let mut st = State::new("hub.a".to_string());
    let sn = st.subnet_add("dev".to_string()).ok().unwrap();
    let b = st.server_add("hub.b".to_string(), 0).ok().unwrap();
    let c = st.server_add("hub.c".to_string(), b).ok().unwrap();
    let d = st.server_add("hub.d".to_string(), 0).ok().unwrap();
    let x = st.client_add("x".to_string(), "x".to_string(), "h".to_string(), "g".to_string(), b, sn).ok().unwrap();
    let y = st.client_add("y".to_string(), "y".to_string(), "h".to_string(), "g".to_string(), c, sn).ok().unwrap();
    let z = st.client_add("z".to_string(), "z".to_string(), "h".to_string(), "g".to_string(), d, sn).ok().unwrap();
    let w = st.client_add("w".to_string(), "w".to_string(), "h".to_string(), "g".to_string(), 0, sn).ok().unwrap();
    let mut hit: Vec<u32> = st.calculate_netsplit_affected_clients(b).into_iter().collect();
    hit.sort();
    assert_eq!(hit, vec![x, y]);
    let all = st.calculate_netsplit_affected_clients(0);
    assert_eq!(all.len(), 4);
    assert!(all.contains(&z) && all.contains(&w));
}

#[test]
fn removing_a_server_takes_its_subtree() {
    let mut st = State::new("hub.a".to_string());
    let b = st.server_add("hub.b".to_string(), 0).ok().unwrap();
    let c = st.server_add("hub.c".to_string(), b).ok().unwrap();
    let d = st.server_add("hub.d".to_string(), 0).ok().unwrap();
    st.server_remove(b);
    assert_eq!(st.server_count(), 2);
    assert!(!st.server_by_id(0).downlinks.contains(&b));
    assert!(st.server_by_id(0).downlinks.contains(&d));
    // The name index keeps the names of removed servers.
    assert_eq!(st.server_by_name("hub.c"), Some(c));
    let again = st.server_add("hub.e".to_string(), 0).ok().unwrap();
    assert_eq!(again, 4);
}

#[test]
fn split_and_removal_agree() {
    let mut st = State::new("hub.a".to_string());
    let sn = st.subnet_add("dev".to_string()).ok().unwrap();
    let b = st.server_add("hub.b".to_string(), 0).ok().unwrap();
    let _c = st.server_add("hub.c".to_string(), b).ok().unwrap();
    let d = st.server_add("hub.d".to_string(), 0).ok().unwrap();
    let x = st.client_add("x".to_string(), "x".to_string(), "h".to_string(), "g".to_string(), d, sn).ok().unwrap();
    assert!(st.calculate_netsplit_affected_clients(b).is_empty());
    st.server_remove(b);
    assert_eq!(st.client_by_id(x).server, d);
    assert_eq!(st.server_count(), 2);
    assert_eq!(st.calculate_netsplit_affected_clients(d).into_iter().collect::<Vec<u32>>(), vec![x]);
}
