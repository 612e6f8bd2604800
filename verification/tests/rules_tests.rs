use tarascapay::balances::{suggested_transfers, to_balance_entries, BalanceRow};
use tarascapay::config::{
    config_from, RawSettings, allows_any_origin, body_limit, check_jwt_secret, cors_origins_from, invalid_origin_message,
    invalid_setting_message,
};
use tarascapay::dto::{
    stats_months, stats_response, stats_scope, trimmed_string, CategoryBreakdown,
    CategoryResponse, CategoryRow, MonthlyPoint, StatsScope,
};
use tarascapay::error::{split_failure, AppError, DbFailure};
use tarascapay::expenses::{
    ensure_can_modify, expense_access, expense_scope, group_expense_shares, my_net_cents,
    notes_update, page_limit, page_offset, personal_expense_shares, resolve_participants,
    search_pattern, ExpenseScope, SplitInput,
};
use tarascapay::groups::{
    check_date_range, check_last_owner, check_removal, default_emoji, description_update,
    generate_invite_code, group_currency, invite_code_from, group_emoji, may_retry_invite, membership_role,
    new_group_kind, normalize_invite_code, require_owner_role,
};
use tarascapay::settlements::{
    check_settlement_parties, check_settlement_party_member, may_delete_settlement,
};
use tarascapay::split::{SplitError, SplitType};

fn row(id: u128, name: &str, paid: i64, owed: i64) -> BalanceRow {
    BalanceRow {
        user_id: id,
        display_name: name.to_string(),
        email: format!("{name}@mail.com"),
        avatar_url: None,
        paid_cents: paid,
        owed_cents: owed,
    }
}

fn message<T: std::fmt::Debug>(r: Result<T, AppError>) -> String {
    match r {
        Err(AppError::BadRequest(m))
        | Err(AppError::Forbidden(m))
        | Err(AppError::Conflict(m))
        | Err(AppError::Unauthorized(m))
        | Err(AppError::NotFound(m)) => m,
        other => panic!("expected an error with a message, got {other:?}"),
    }
}

#[test]
fn default_emojis() {
    assert_eq!(default_emoji("trip"), "✈️");
    assert_eq!(default_emoji("home"), "🏠");
    assert_eq!(default_emoji("couple"), "❤️");
    assert_eq!(default_emoji("event"), "🎉");
    assert_eq!(default_emoji("other"), "🌎");
    assert_eq!(group_emoji(Some("🍕"), "trip"), "🍕");
    assert_eq!(group_emoji(Some("  "), "home"), "🏠");
    assert_eq!(group_emoji(None, "event"), "🎉");
}

#[test]
fn new_group_defaults() {
    assert_eq!(new_group_kind(None).unwrap(), "trip");
    assert_eq!(new_group_kind(Some("HOME")).unwrap(), "home");
    assert!(new_group_kind(Some("casa")).is_err());
    assert_eq!(group_currency(None, "ARS  ").unwrap(), "ARS");
    assert_eq!(group_currency(Some("usd"), "ARS").unwrap(), "USD");
    assert!(group_currency(Some("dolares"), "ARS").is_err());
    assert!(check_date_range(Some(10), Some(10)).is_ok());
    assert!(check_date_range(Some(10), None).is_ok());
    assert_eq!(
        message(check_date_range(Some(10), Some(9))),
        "la fecha de fin no puede ser anterior a la de inicio"
    );
}

#[test]
fn description_updates() {
    let keep = description_update(None);
    assert!(keep.text.is_none() && !keep.clear);
    let clear = description_update(Some("   "));
    assert!(clear.text.is_none() && clear.clear);
    let set = description_update(Some(" viaje al sur "));
    assert_eq!(set.text.as_deref(), Some("viaje al sur"));
    assert!(!set.clear);
}

#[test]
fn invite_codes() {
    let alphabet = "ABCDEFGHJKLMNPQRSTUVWXYZ23456789";
    for _ in 0..20 {
        let code = generate_invite_code();
        assert_eq!(code.chars().count(), 8);
        assert!(code.chars().all(|c| alphabet.contains(c)));
    }
    assert_eq!(invite_code_from(&[0, 31, 8, 7, 24, 23, 12, 1]), "A9JH2ZNB");
    assert_eq!(invite_code_from(&[]), "");
    assert_eq!(normalize_invite_code("  abcd2345 "), "ABCD2345");
    assert!(may_retry_invite(4));
    assert!(!may_retry_invite(5));
}

#[test]
fn roles_and_removals() {
    assert_eq!(membership_role(Some("owner".to_string())).unwrap(), "owner");
    assert_eq!(message(membership_role(None)), "no pertenecés a este grupo");
    assert!(require_owner_role("owner").is_ok());
    assert_eq!(
        message(require_owner_role("member")),
        "sólo el administrador del grupo puede hacer esto"
    );
    // Anyone may leave; only the administrator removes others.
    assert_eq!(check_removal(1, 1, "member", Some(0)).unwrap(), false);
    assert_eq!(check_removal(1, 1, "owner", None).unwrap(), true);
    assert_eq!(check_removal(1, 2, "owner", Some(0)).unwrap(), false);
    assert_eq!(
        message(check_removal(1, 2, "member", Some(0))),
        "sólo el administrador puede sacar a otros miembros"
    );
    assert_eq!(
        message(check_removal(1, 2, "owner", Some(-5))),
        "esa persona tiene saldo pendiente en el grupo: salden las cuentas antes de sacarla"
    );
    assert_eq!(
        message(check_last_owner(0, 2)),
        "sos el único administrador: pasale el rol a otro miembro o eliminá el grupo"
    );
    assert!(check_last_owner(0, 1).is_ok());
    assert!(check_last_owner(1, 5).is_ok());
}

#[test]
fn balances_and_suggested_transfers() {
    let rows = vec![row(1, "ana", 9_000, 3_000), row(2, "beto", 0, 3_000), row(3, "caro", 0, 3_000)];
    assert_eq!(rows[0].net_cents(), 6_000);
    let entries = to_balance_entries(&rows);
    assert_eq!(entries.len(), 3);
    assert_eq!(entries[1].net_cents, -3_000);
    assert_eq!(entries[1].user.display_name, "beto");
    assert_eq!(entries[0].paid_cents, 9_000);
    let transfers = suggested_transfers(&rows);
    assert_eq!(transfers.len(), 2);
    for t in &transfers {
        assert_eq!(t.to.id, 1);
        assert_eq!(t.to.display_name, "ana");
        assert_eq!(t.amount_cents, 3_000);
    }
    assert_eq!(transfers[0].from.id, 2);
    assert_eq!(transfers[1].from.id, 3);
    assert_eq!(transfers[1].from.email, "caro@mail.com");
    assert!(suggested_transfers(&[row(1, "ana", 10, 10)]).is_empty());
}

#[test]
fn participants_of_an_expense() {
    let members = vec![1u128, 2, 3];
    let all = resolve_participants(&[], &members, SplitType::Equal).unwrap();
    assert_eq!(all.iter().map(|p| (p.user_id, p.value)).collect::<Vec<_>>(), vec![(1, 0), (2, 0), (3, 0)]);
    assert_eq!(
        message(resolve_participants(&[], &members, SplitType::Exact)),
        "indicá el reparto de cada participante"
    );
    let asked = vec![SplitInput { user_id: 2, value: 70 }, SplitInput { user_id: 3, value: 30 }];
    let ps = resolve_participants(&asked, &members, SplitType::Exact).unwrap();
    assert_eq!(ps.iter().map(|p| (p.user_id, p.value)).collect::<Vec<_>>(), vec![(2, 70), (3, 30)]);
    let stranger = vec![SplitInput { user_id: 9, value: 1 }];
    assert_eq!(
        message(resolve_participants(&stranger, &members, SplitType::Shares)),
        "hay participantes que no son miembros del grupo"
    );
}

#[test]
fn shares_of_expenses() {
    let members = vec![1u128, 2, 3];
    let shares = group_expense_shares(1_000, SplitType::Equal, 1, &members, &[]).unwrap();
    assert_eq!(shares.iter().map(|s| s.share_cents).collect::<Vec<_>>(), vec![334, 333, 333]);
    assert_eq!(
        message(group_expense_shares(1_000, SplitType::Equal, 7, &members, &[])),
        "quien pagó tiene que ser miembro del grupo"
    );
    let asked = vec![SplitInput { user_id: 1, value: 100 }, SplitInput { user_id: 2, value: 100 }];
    assert_eq!(
        message(group_expense_shares(1_000, SplitType::Exact, 1, &members, &asked)),
        "los importes del reparto suman 200 y el gasto es de 1000"
    );
    let mine = personal_expense_shares(5, 1_234).unwrap();
    assert_eq!(mine.len(), 1);
    assert_eq!((mine[0].user_id, mine[0].share_cents, mine[0].split_value), (5, 1_234, 1_234));
    assert_eq!(message(personal_expense_shares(5, 0)), "el importe debe ser mayor a cero");
    assert!(matches!(split_failure(SplitError::ZeroShares), AppError::BadRequest(m) if m == "al menos un participante debe tener partes"));
}

#[test]
fn notes_and_permissions() {
    assert_eq!(notes_update(Some("  "), Some("vieja".to_string())), None);
    assert_eq!(notes_update(Some(" nueva "), None).as_deref(), Some("nueva"));
    assert_eq!(notes_update(None, Some("vieja".to_string())).as_deref(), Some("vieja"));
    assert!(ensure_can_modify(1, 2, 1, None).is_ok());
    assert!(ensure_can_modify(1, 2, 2, None).is_ok());
    assert!(ensure_can_modify(1, 2, 3, Some("owner")).is_ok());
    assert_eq!(
        message(ensure_can_modify(1, 2, 3, Some("member"))),
        "sólo quien cargó el gasto, quien lo pagó o el admin del grupo pueden modificarlo"
    );
    assert_eq!(expense_access(Some(4), 1, 2).unwrap(), Some(4));
    assert_eq!(expense_access(None, 1, 1).unwrap(), None);
    assert_eq!(message(expense_access(None, 1, 2)), "este gasto personal no es tuyo");
}

#[test]
fn what_an_expense_means_for_me() {
    let shares = vec![(1u128, 3_000i64), (2, 3_000), (3, 3_000)];
    assert_eq!(my_net_cents(1, 9_000, 1, &shares), 6_000);
    assert_eq!(my_net_cents(1, 9_000, 2, &shares), -3_000);
    assert_eq!(my_net_cents(1, 9_000, 4, &shares), 0);
}

#[test]
fn listing_expenses() {
    assert!(matches!(expense_scope(Some(3), Some(true), 1), ExpenseScope::Group(3)));
    assert!(matches!(expense_scope(None, Some(true), 1), ExpenseScope::PersonalOf(1)));
    assert!(matches!(expense_scope(None, None, 1), ExpenseScope::VisibleTo(1)));
    assert_eq!(page_limit(None), 50);
    assert_eq!(page_limit(Some(0)), 1);
    assert_eq!(page_limit(Some(1_000)), 500);
    assert_eq!(page_limit(Some(20)), 20);
    assert_eq!(page_offset(Some(-3)), 0);
    assert_eq!(page_offset(None), 0);
    assert_eq!(page_offset(Some(40)), 40);
    assert_eq!(search_pattern(Some("  taxi ")).as_deref(), Some("%taxi%"));
    assert_eq!(search_pattern(Some("   ")), None);
    assert_eq!(search_pattern(None), None);
}

#[test]
fn settlements_rules() {
    assert!(check_settlement_parties(1, 2).is_ok());
    assert_eq!(
        message(check_settlement_parties(1, 1)),
        "el pago tiene que ser entre dos personas distintas"
    );
    assert_eq!(
        message(check_settlement_party_member(false)),
        "ambas personas tienen que ser miembros del grupo"
    );
    assert!(may_delete_settlement(1, 2, 3, 3, None).is_ok());
    assert!(may_delete_settlement(1, 2, 3, 4, Some("owner")).is_ok());
    assert_eq!(
        message(may_delete_settlement(1, 2, 3, 4, Some("member"))),
        "sólo quien participó del pago o el admin del grupo pueden borrarlo"
    );
}

#[test]
fn settings() {
    assert!(check_jwt_secret("0123456789abcdef").is_ok());
    assert_eq!(
        check_jwt_secret("corto").unwrap_err(),
        "JWT_SECRET debe tener al menos 16 caracteres"
    );
    assert_eq!(
        cors_origins_from("http://a.com, ,http://b.com ,"),
        vec!["http://a.com".to_string(), "http://b.com".to_string()]
    );
    assert!(cors_origins_from("").is_empty());
    assert!(allows_any_origin(&cors_origins_from("http://a.com,*")));
    assert!(!allows_any_origin(&cors_origins_from("http://a.com")));
    assert_eq!(invalid_setting_message("PORT", "x"), "el valor de PORT ('x') no es válido");
    assert_eq!(invalid_origin_message("a b"), "origen CORS inválido: 'a b'");
    assert_eq!(body_limit(10 * 1024 * 1024), 11 * 1024 * 1024);
}

#[test]
fn statistics() {
    assert!(matches!(stats_scope(Some(2), None), StatsScope::Group(2)));
    assert!(matches!(stats_scope(None, Some(true)), StatsScope::Personal));
    assert!(matches!(stats_scope(None, Some(false)), StatsScope::Everything));
    assert_eq!(stats_months(None), 6);
    assert_eq!(stats_months(Some(0)), 1);
    assert_eq!(stats_months(Some(99)), 36);
    assert_eq!(stats_months(Some(12)), 12);
    let cat = |id: i32, total: i64| CategoryBreakdown {
        category: CategoryResponse::from(CategoryRow {
            id,
            slug: format!("c{id}"),
            name: format!("Cat {id}"),
            icon: "x".to_string(),
        }),
        total_cents: total,
        expense_count: 1,
    };
    let r = stats_response(
        "ARS".to_string(),
        500,
        3,
        vec![cat(1, 300), cat(2, 0), cat(3, 200)],
        vec![MonthlyPoint { month: "2026-01".to_string(), total_cents: 500 }],
    );
    assert_eq!(r.by_category.iter().map(|c| c.category.id).collect::<Vec<_>>(), vec![1, 3]);
    assert_eq!(r.by_category[1].category.slug, "c3");
    assert_eq!(r.by_month.len(), 1);
    assert_eq!((r.total_cents, r.expense_count), (500, 3));
    assert_eq!(trimmed_string(" ARS "), "ARS");
}

#[test]
fn error_statuses() {
    let (status, text) = AppError::Database(DbFailure::UniqueViolation).status_and_message();
    assert_eq!((status, text.as_str()), (409, "ya existe un registro con esos datos"));
    let (status, text) = AppError::Database(DbFailure::RowNotFound).status_and_message();
    assert_eq!((status, text.as_str()), (404, "no se encontró el recurso"));
    let (status, text) = AppError::Internal("detalle".to_string()).status_and_message();
    assert_eq!((status, text.as_str()), (500, "error interno del servidor"));
    let (status, text) = AppError::PayloadTooLarge("grande".to_string()).status_and_message();
    assert_eq!((status, text.as_str()), (413, "grande"));
    let (status, _) = AppError::bad_request("x".to_string()).status_and_message();
    assert_eq!(status, 400);
}

#[test]
fn starter_server() {
    assert_eq!(tarascapay::starter::health_check(), "OK");
    let u = tarascapay::starter::create_user("galo".to_string());
    assert_eq!((u.id, u.username.as_str(), u.status.as_str()), (101, "galo", "active"));
}

#[test]
fn every_error_has_its_status() {
    let cases = vec![
        (AppError::unauthorized("u".to_string()), 401, "u"),
        (AppError::forbidden("f".to_string()), 403, "f"),
        (AppError::not_found("n".to_string()), 404, "n"),
        (AppError::conflict("c".to_string()), 409, "c"),
        (AppError::Database(DbFailure::Other("detalle".to_string())), 500, "error interno del servidor"),
    ];
    for (err, status, text) in cases {
        let (s, m) = err.status_and_message();
        assert_eq!((s, m.as_str()), (status, text));
    }
}

fn raw(db: Option<&str>) -> RawSettings {
    RawSettings {
        database_url: db.map(String::from),
        jwt_secret: Some("0123456789abcdef".to_string()),
        port: None,
        host: None,
        jwt_ttl_hours: None,
        max_upload_bytes: None,
        upload_dir: None,
        cors_origins: None,
        web_dist: None,
    }
}

fn setting_error(r: RawSettings) -> String {
    match config_from(r, String::new()) {
        Err(m) => m,
        Ok(_) => panic!("expected the settings to be refused"),
    }
}

#[test]
fn settings_from_the_environment() {
    let c = config_from(raw(Some("postgres://db")), String::new()).unwrap();
    assert_eq!(c.database_url, "postgres://db");
    assert_eq!((c.port, c.jwt_ttl_hours, c.max_upload_bytes), (3000, 720, 10 * 1024 * 1024));
    assert_eq!(c.host, "127.0.0.1");
    assert_eq!(c.upload_dir, std::path::PathBuf::from("./uploads"));
    assert_eq!(c.cors_origins, vec!["http://localhost:5173".to_string(), "http://127.0.0.1:5173".to_string()]);
    assert!(c.web_dist.is_none());

    let mut r = raw(Some("postgres://db"));
    r.port = Some(" 8080 ".to_string());
    r.jwt_ttl_hours = Some("-1".to_string());
    r.max_upload_bytes = Some("+2048".to_string());
    r.host = Some("0.0.0.0".to_string());
    r.cors_origins = Some("*".to_string());
    r.web_dist = Some("./web/dist".to_string());
    r.jwt_secret = None;
    let c = config_from(r, "un-secreto-efimero-largo".to_string()).unwrap();
    assert_eq!((c.port, c.jwt_ttl_hours, c.max_upload_bytes), (8080, -1, 2048));
    assert_eq!(c.host, "0.0.0.0");
    assert_eq!(c.jwt_secret, "un-secreto-efimero-largo");
    assert_eq!(c.cors_origins, vec!["*".to_string()]);
    assert_eq!(c.web_dist, Some(std::path::PathBuf::from("./web/dist")));
}

#[test]
fn settings_that_are_refused() {
    assert_eq!(setting_error(raw(None)), "falta la variable de entorno DATABASE_URL");
    let mut r = raw(Some("db"));
    r.jwt_secret = Some("corto".to_string());
    assert_eq!(setting_error(r), "JWT_SECRET debe tener al menos 16 caracteres");
    for bad in ["70000", "-1", "-0", "+", "", "8o80", "3 000"] {
        let mut r = raw(Some("db"));
        r.port = Some(bad.to_string());
        assert_eq!(setting_error(r), format!("el valor de PORT ('{bad}') no es válido"));
    }
    let mut r = raw(Some("db"));
    r.jwt_ttl_hours = Some("99999999999999999999".to_string());
    assert_eq!(setting_error(r), "el valor de JWT_TTL_HOURS ('99999999999999999999') no es válido");
    let mut r = raw(Some("db"));
    r.max_upload_bytes = Some("-5".to_string());
    assert_eq!(setting_error(r), "el valor de MAX_UPLOAD_BYTES ('-5') no es válido");
    // Leading zeros and a sign are read as std reads them.
    let mut r = raw(Some("db"));
    r.jwt_ttl_hours = Some("-0007".to_string());
    assert_eq!(config_from(r, String::new()).unwrap().jwt_ttl_hours, -7);
}
