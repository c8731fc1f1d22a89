use resource_node::local_files::{BlockResource, FileResource, ResourceIndex};
use resource_node::tracker_dto::{offline_request, update_request_from_index, UpdateNodeRequest};
use serde_json::Value;
type JsonObject = serde_json::Map<String, Value>;

fn payload_to_value(p: &UpdateNodeRequest) -> Value {
    let mut root = JsonObject::new();
    root.insert("node_id".to_string(), Value::from(p.node_id.clone()));
    root.insert("host".to_string(), Value::from(p.host.clone()));
    root.insert("port".to_string(), Value::from(p.port));
    let mut resources = Vec::new();
    for r in &p.resources {
        let mut m = JsonObject::new();
        m.insert("file_hash".to_string(), Value::from(r.file_hash.clone()));
        m.insert("file_name".to_string(), Value::from(r.file_name.clone()));
        m.insert("file_size".to_string(), Value::from(r.file_size));
        m.insert("block_size".to_string(), Value::from(r.block_size));
        let mut blocks = Vec::new();
        for b in &r.blocks {
            let mut bm = JsonObject::new();
            bm.insert("index".to_string(), Value::from(b.index));
            bm.insert("hash".to_string(), Value::from(b.hash.clone()));
            bm.insert("size".to_string(), Value::from(b.size));
            blocks.push(Value::Object(bm));
        }
        m.insert("blocks".to_string(), Value::Array(blocks));
        resources.push(Value::Object(m));
    }
    root.insert("resources".to_string(), Value::Array(resources));
    let mut meta = JsonObject::new();
    for (k, v) in &p.metadata {
        meta.insert(k.clone(), Value::from(v.clone()));
    }
    root.insert("metadata".to_string(), Value::Object(meta));
    Value::Object(root)
}

#[test]
fn converts_local_index_to_tracker_update_payload() {
    let index = ResourceIndex {
        resources: vec![FileResource {
            file_hash: "hash-x".to_string(),
            file_name: "x.txt".to_string(),
            file_size: 20,
            block_size: 10,
            blocks: vec![BlockResource {
                index: 0,
                hash: "block-hash-0".to_string(),
                size: 10,
            }],
        }],
    };

    let payload = update_request_from_index("node-a", "127.0.0.1", 9001, &index);
    let value = payload_to_value(&payload);

    let mut block = JsonObject::new();
    block.insert("index".to_string(), Value::from(0));
    block.insert("hash".to_string(), Value::from("block-hash-0"));
    block.insert("size".to_string(), Value::from(10));
    let mut resource = JsonObject::new();
    resource.insert("file_hash".to_string(), Value::from("hash-x"));
    resource.insert("file_name".to_string(), Value::from("x.txt"));
    resource.insert("file_size".to_string(), Value::from(20));
    resource.insert("block_size".to_string(), Value::from(10));
    resource.insert("blocks".to_string(), Value::Array(vec![Value::Object(block)]));
    let mut metadata = JsonObject::new();
    metadata.insert("client".to_string(), Value::from("rust-resource-node"));
    let mut expected = JsonObject::new();
    expected.insert("node_id".to_string(), Value::from("node-a"));
    expected.insert("host".to_string(), Value::from("127.0.0.1"));
    expected.insert("port".to_string(), Value::from(9001));
    expected.insert("resources".to_string(), Value::Array(vec![Value::Object(resource)]));
    expected.insert("metadata".to_string(), Value::Object(metadata));

    assert_eq!(value, Value::Object(expected));
}

#[test]
fn update_request_keeps_every_resource_in_order() {
    let index = ResourceIndex {
        resources: vec![
            FileResource { file_hash: "h1".into(), file_name: "a".into(), file_size: 0, block_size: 4, blocks: vec![] },
            FileResource { file_hash: "h2".into(), file_name: "b".into(), file_size: 5, block_size: 4, blocks: vec![
                BlockResource { index: 0, hash: "b0".into(), size: 4 },
                BlockResource { index: 1, hash: "b1".into(), size: 1 },
            ] },
        ],
    };
    let p = update_request_from_index("n", "h", 1, &index);
    assert_eq!(p.resources.len(), 2);
    assert_eq!(p.resources[0].file_name, "a");
    assert_eq!(p.resources[1].blocks.len(), 2);
    assert_eq!(p.resources[1].blocks[1].hash, "b1");
    assert_eq!(p.resources[1].blocks[1].size, 1);
    assert_eq!(p.metadata, vec![("client".to_string(), "rust-resource-node".to_string())]);
}

#[test]
fn offline_request_names_the_node() {
    assert_eq!(offline_request("node-7").node_id, "node-7");
}
