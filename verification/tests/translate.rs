//! End-to-end translate tests: evaluate a script, normalize, render YAML,
//! and check the re-parsed structure.
use std::collections::HashMap;

use kluars::script::translate_script;
use serde_yaml::Value;

const POD_SCRIPT: &str = r#"
return {
  kind = "Pod",
  apiVersion = "v1",
  metadata = { name = "nginx" },
  spec = {
    containers = {
      {
        name = "nginx",
        image = "nginx:1.14.2",
        ports = { { containerPort = 80 } },
      },
    },
  },
}
"#;

fn check_pod(out: &str, name: &str, port: u64) {
    let out: HashMap<String, Value> = serde_yaml::from_str(out).expect("Got invalid YAML");
    let name = &Value::String(String::from(name));

    // kind: Pod
    let value = out.get("kind").expect("kind not found");
    let expected = &Value::String(String::from("Pod"));
    assert_eq!(value, expected);

    // apiVersion: v1
    let value = out.get("apiVersion").expect("apiVersion not found");
    let expected = &Value::String(String::from("v1"));
    assert_eq!(value, expected);

    // metadata
    let metadata = out.get("metadata").expect("did not find metadata");

    let value = metadata.get("name").expect("did not find name");
    let expected = name;
    assert_eq!(value, expected);

    // spec
    let spec = out.get("spec").expect("did not find spec");
    let containers = spec.get("containers").expect("did not find containers");
    let Value::Sequence(containers) = containers else {
        panic!("containers is not sequence");
    };
    assert_eq!(containers.len(), 1);

    let nginx = containers.get(0).unwrap();
    let value = nginx.get("name").expect("no name in nginx");
    assert_eq!(value, name);

    let value = nginx.get("image").expect("no image in nginx");
    let expected = &Value::String(String::from("nginx:1.14.2"));
    assert_eq!(value, expected);

    let ports = nginx.get("ports").expect("no ports in nginx");
    let Value::Sequence(ports) = ports else {
        panic!("ports is not sequence");
    };
    assert_eq!(ports.len(), 1);

    let p = ports.get(0).unwrap();
    let Value::Number(p) = p.get("containerPort").unwrap() else {
        panic!("containerPort is not number")
    };
    let p = p.as_u64().unwrap();
    assert_eq!(p, port);
}

#[test]
fn lib_basic() {
    let out = translate_script(POD_SCRIPT, None, &Vec::new())
        .expect("Failed to translate the pod script");
    check_pod(&out, "nginx", 80);
}

const TEMPLATE_SCRIPT: &str = r#"
return {
  kind = "Pod",
  apiVersion = "v1",
  metadata = { name = name },
  spec = {
    containers = {
      {
        name = name,
        image = "nginx:1.14.2",
        ports = { { containerPort = tonumber(port) } },
      },
    },
  },
}
"#;

const VALUES_SCRIPT: &str = r#"
name = "web"
port = 8080
"#;

#[test]
fn global_template() {
    let out = translate_script(TEMPLATE_SCRIPT, Some(VALUES_SCRIPT), &Vec::new())
        .expect("Failed to translate the template script");
    check_pod(&out, "web", 8080);
}

#[test]
fn args_over_global() {
    let globals = vec![
        (String::from("name"), String::from("something")),
        (String::from("port"), String::from("42069")),
    ];
    let out = translate_script(TEMPLATE_SCRIPT, Some(VALUES_SCRIPT), &globals)
        .expect("Failed to translate the template script");
    check_pod(&out, "something", 42069);
}

const MULTI_SCRIPT: &str = r#"
return {
  {
    kind = "Service",
    apiVersion = "v1",
    metadata = { name = "my-nginx-svc", labels = { app = "nginx" } },
    spec = {
      type = "LoadBalancer",
      ports = { { port = 80 } },
      selector = { app = "nginx" },
    },
  },
  {
    kind = "Deployment",
    apiVersion = "apps/v1",
    metadata = { name = "my-nginx" },
    spec = { replicas = 2 },
  },
}
"#;

#[test]
fn multidoc() {
    let out = translate_script(MULTI_SCRIPT, None, &Vec::new())
        .expect("Failed to translate the multi-document script");

    // One separator line per document, the first included.
    let separators = out.lines().filter(|l| *l == "---").count();
    assert_eq!(separators, 2);
    assert!(out.starts_with("---\n"));

    let docs: Vec<Value> = out
        .split("---\n")
        .filter(|part| !part.is_empty())
        .map(|part| serde_yaml::from_str(part).expect("Got invalid YAML"))
        .collect();
    assert_eq!(docs.len(), 2);

    let service = &docs[0];
    let value = service.get("kind").expect("kind not found");
    assert_eq!(value, &Value::String(String::from("Service")));
    let value = service.get("apiVersion").expect("apiVersion not found");
    assert_eq!(value, &Value::String(String::from("v1")));
    let metadata = service.get("metadata").expect("metadata not found");
    let value = metadata.get("name").expect("no name in metadata");
    assert_eq!(value, &Value::String(String::from("my-nginx-svc")));
    let labels = metadata.get("labels").expect("no labels in metadata");
    let value = labels.get("app").expect("no app in labels");
    assert_eq!(value, &Value::String(String::from("nginx")));
    let spec = service.get("spec").expect("spec not found");
    let value = spec.get("type").expect("no type in spec");
    assert_eq!(value, &Value::String(String::from("LoadBalancer")));
    let ports = spec.get("ports").expect("no ports in spec");
    let Value::Sequence(ports) = ports else {
        panic!("ports is not sequence");
    };
    let port = ports.get(0).expect("no port in port");
    let Value::Number(port) = port.get("port").expect("no port in port") else {
        panic!("port is not number");
    };
    assert_eq!(port.as_u64().unwrap(), 80);
    let selector = spec.get("selector").expect("no selector in spec");
    let value = selector.get("app").expect("no app in selector");
    assert_eq!(value, &Value::String(String::from("nginx")));

    let deployment = &docs[1];
    let value = deployment.get("kind").expect("kind not found");
    assert_eq!(value, &Value::String(String::from("Deployment")));
    let value = deployment.get("apiVersion").expect("apiVersion not found");
    assert_eq!(value, &Value::String(String::from("apps/v1")));
    let metadata = deployment.get("metadata").expect("no metadata in deployment");
    let value = metadata.get("name").expect("no name in metadata");
    assert_eq!(value, &Value::String(String::from("my-nginx")));
    assert!(deployment.get("spec").is_some(), "no spec in deployment");
}

#[test]
fn two_containers_pod() {
    let script = r#"
return {
  kind = "Pod",
  apiVersion = "v1",
  metadata = { name = "two-containers" },
  spec = {
    restartPolicy = "Never",
    volumes = { { name = "shared-data", emptyDir = {} } },
    containers = {
      {
        name = "nginx",
        image = "nginx",
        volumeMounts = { { name = "shared-data", mountPath = "/usr/share/nginx/html" } },
      },
      {
        name = "debian-container",
        image = "debian",
        volumeMounts = { { name = "shared-data", mountPath = "/pod-data" } },
        command = { "/bin/sh" },
        args = { "-c", "echo Hello from the debian container > /pod-data/index.html" },
      },
    },
  },
}
"#;
    let out = translate_script(script, None, &Vec::new())
        .expect("Failed to translate the two-container script");
    let out: HashMap<String, Value> = serde_yaml::from_str(&out).expect("Got invalid YAML");

    // kind: Pod
    let value = out.get("kind").expect("kind not found");
    let expected = &Value::String(String::from("Pod"));
    assert_eq!(value, expected);

    // apiVersion: v1
    let value = out.get("apiVersion").expect("apiVersion not found");
    let expected = &Value::String(String::from("v1"));
    assert_eq!(value, expected);

    // metadata
    let metadata = out.get("metadata").expect("did not find metadata");
    let value = metadata.get("name").expect("did not find name");
    let expected = &Value::String(String::from("two-containers"));
    assert_eq!(value, expected);

    // spec
    let spec = out.get("spec").expect("did not find spec");
    let value = spec.get("restartPolicy").expect("no restartPolicy in spec");
    let expected = &Value::String(String::from("Never"));
    assert_eq!(value, expected);

    let volumes = spec.get("volumes").expect("no volumes in spec");
    let Value::Sequence(volumes) = volumes else {
        panic!("volumes is not sequence");
    };
    assert_eq!(volumes.len(), 1);
    let volume = &volumes[0];

    let value = volume.get("name").expect("no name in volume");
    let expected = &Value::String(String::from("shared-data"));
    assert_eq!(value, expected);

    let empty_dir = volume.get("emptyDir").expect("no emptyDir in volume");
    let Value::Mapping(empty_dir) = empty_dir else {
        panic!("emptyDir is not sequence");
    };
    assert!(empty_dir.is_empty());

    let containers = spec.get("containers").expect("did not find containers");
    let Value::Sequence(containers) = containers else {
        panic!("containers is not sequence");
    };
    assert_eq!(containers.len(), 2);

    // nginx container
    let nginx = &containers[0];
    let value = nginx.get("name").expect("no name in nginx");
    let expected = &Value::String(String::from("nginx"));
    assert_eq!(value, expected);

    let value = nginx.get("image").expect("no image in nginx");
    let expected = &Value::String(String::from("nginx"));
    assert_eq!(value, expected);

    let mounts = nginx.get("volumeMounts").expect("no mounts in nginx");
    let Value::Sequence(mounts) = mounts else {
        panic!("mounts is not sequence");
    };
    assert_eq!(mounts.len(), 1);

    let mount = mounts.get(0).unwrap();
    let value = mount.get("name").expect("no name in mount");
    let expected = &Value::String(String::from("shared-data"));
    assert_eq!(value, expected);

    let value = mount.get("mountPath").expect("no mountPath in mount");
    let expected = &Value::String(String::from("/usr/share/nginx/html"));
    assert_eq!(value, expected);

    // debian container
    let debian = &containers[1];
    let value = debian.get("name").expect("no name in debian");
    let expected = &Value::String(String::from("debian-container"));
    assert_eq!(value, expected);

    let value = debian.get("image").expect("no image in debian");
    let expected = &Value::String(String::from("debian"));
    assert_eq!(value, expected);

    let mounts = debian.get("volumeMounts").expect("no mounts in debian");
    let Value::Sequence(mounts) = mounts else {
        panic!("mounts is not sequence");
    };
    assert_eq!(mounts.len(), 1);

    let mount = &mounts[0];
    let value = mount.get("name").expect("no name in mount");
    let expected = &Value::String(String::from("shared-data"));
    assert_eq!(value, expected);

    let value = mount.get("mountPath").expect("no mountPath in mount");
    let expected = &Value::String(String::from("/pod-data"));
    assert_eq!(value, expected);

    let command = debian.get("command").expect("no command in debian");
    let Value::Sequence(command) = command else {
        panic!("command is not sequence");
    };
    assert_eq!(command.len(), 1);
    let value = &command[0];
    let expected = &Value::String(String::from("/bin/sh"));
    assert_eq!(value, expected);

    let args = debian.get("args").expect("no args in debian");
    let Value::Sequence(args) = args else {
        panic!("args is not sequence");
    };
    assert_eq!(args.len(), 2);

    let expected_args = vec![
        Value::String(String::from("-c")),
        Value::String(String::from(
            "echo Hello from the debian container > /pod-data/index.html",
        )),
    ];

    for (i, value) in args.iter().enumerate() {
        assert_eq!(value, &expected_args[i]);
    }
}

#[test]
fn float_values_translate() {
    let script = r#"
return {
  kind = "Pod",
  apiVersion = "v1",
  metadata = { name = "fractions" },
  cpu = 0.5,
  half = 1 / 2,
  big = 2 ^ 63,
}
"#;
    let out = translate_script(script, None, &Vec::new())
        .expect("Failed to translate the fractional script");
    let out: HashMap<String, Value> = serde_yaml::from_str(&out).expect("Got invalid YAML");
    assert_eq!(out.get("cpu").unwrap().as_f64().unwrap(), 0.5);
    assert_eq!(out.get("half").unwrap().as_f64().unwrap(), 0.5);
    assert!(out.get("big").unwrap().as_f64().unwrap() > 9.2e18);
}

#[test]
fn failing_script_is_an_error() {
    let r = translate_script("return {", None, &Vec::new());
    assert!(r.is_err());
}
