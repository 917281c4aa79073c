//! A multi-tenant server: 3 clients × 3 databases × 3 collections × 1,000
//! documents = 27,000 documents.

use grumpydb::document::value::{find_field, object};
use grumpydb::uid::Uuid;
use grumpydb::{GrumpyServer, Value};

#[test]
fn test_stress_multi_tenant() {
    let mut server = GrumpyServer::open();

    // Create 3 clients × 3 databases × 3 collections
    for c in 0..3 {
        let client_name = format!("client{c}");
        server.create_client(&client_name).unwrap();
        let client = server.client(&client_name).unwrap();
        for d in 0..3 {
            let db_name = format!("db{d}");
            client.create_database(&db_name).unwrap();
            let db = client.database(&db_name).unwrap();
            for col in 0..3 {
                db.create_collection(&format!("coll{col}")).unwrap();
            }
        }
    }

    // Insert 1,000 docs into each of the 27 collections
    for c in 0..3 {
        let client_name = format!("client{c}");
        let client = server.client(&client_name).unwrap();
        for d in 0..3 {
            let db_name = format!("db{d}");
            let db = client.database(&db_name).unwrap();
            for col in 0..3 {
                let coll_name = format!("coll{col}");
                for i in 0u128..1_000 {
                    let key = Uuid::from_u128(
                        c as u128 * 1_000_000 + d as u128 * 100_000 + col as u128 * 10_000 + i,
                    );
                    db.insert(
                        &coll_name,
                        key,
                        object(vec![
                            ("client".into(), Value::String(client_name.clone())),
                            ("db".into(), Value::String(db_name.clone())),
                            ("coll".into(), Value::String(coll_name.clone())),
                            ("idx".into(), Value::Integer(i as i64)),
                        ]),
                    )
                    .unwrap();
                }
            }
        }
    }

    // Verify counts: each collection should have 1,000 docs
    for c in 0..3 {
        let client = server.client(&format!("client{c}")).unwrap();
        for d in 0..3 {
            let db = client.database(&format!("db{d}")).unwrap();
            for col in 0..3 {
                let count = db.document_count(&format!("coll{col}")).unwrap();
                assert_eq!(
                    count, 1_000,
                    "client{c}/db{d}/coll{col} should have 1000 docs"
                );
            }
        }
    }

    // Verify isolation: spot-check a few documents
    let client0 = server.client("client0").unwrap();
    let db0 = client0.database("db0").unwrap();
    let val = db0.get("coll0", &Uuid::from_u128(42)).unwrap().unwrap();
    let obj = val.as_object().unwrap();
    let (place, found) = find_field(obj, "client");
    assert!(found);
    assert_eq!(obj[place].1, Value::String("client0".into()));

    server.close().unwrap();
}
