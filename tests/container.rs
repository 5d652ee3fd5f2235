use rtk::container::{compact_ports, format_compose_build, format_compose_ps};

#[test]
fn test_format_compose_build_basic() {
    let raw = "\
[+] Building 12.3s (8/8) FINISHED
 => [web internal] load build definition from Dockerfile           0.0s
 => [web internal] load metadata for docker.io/library/node:20     1.2s
 => [web 1/4] FROM docker.io/library/node:20@sha256:abc123         0.0s
 => [web 2/4] WORKDIR /app                                         0.1s
 => [web 3/4] COPY package*.json ./                                0.1s
 => [web 4/4] RUN npm install                                      8.5s
 => [web] exporting to image                                       2.3s
 => => naming to docker.io/library/myapp-web                       0.0s";
    let out = format_compose_build(raw);
    assert!(out.contains("12.3s"), "should show total build time");
    assert!(out.contains("web"), "should show service name");
    assert!(out.len() < raw.len(), "should be shorter than raw");
}

#[test]
fn format_compose_build_exact_summary() {
    let raw = "[+] Building 12.3s (8/8) FINISHED\n => [web 1/4] FROM node\n => [api 1/2] FROM go\n => [web 2/4] RUN x\n";
    assert_eq!(
        format_compose_build(raw),
        "\u{1F433} [+] Building 12.3s (8/8) FINISHED\n  Services: web, api\n  Steps: 3"
    );
}

#[test]
fn format_compose_build_without_finished_line() {
    assert_eq!(format_compose_build("Building web\nstep"), "\u{1F433} Building web");
    assert_eq!(format_compose_build("nothing here"), "\u{1F433} Build:");
}

#[test]
fn test_format_compose_build_empty() {
    let out = format_compose_build("");
    assert!(!out.is_empty(), "should produce output even for empty input");
    assert_eq!(out, "\u{1F433} Build: no output");
}

#[test]
fn test_compact_ports_empty() {
    assert_eq!(compact_ports(""), "-");
}

#[test]
fn test_compact_ports_single() {
    let result = compact_ports("0.0.0.0:8080->80/tcp");
    assert!(result.contains("8080"));
    assert_eq!(result, "8080");
}

#[test]
fn test_compact_ports_many() {
    let result = compact_ports("0.0.0.0:80->80/tcp, 0.0.0.0:443->443/tcp, 0.0.0.0:8080->8080/tcp, 0.0.0.0:9090->9090/tcp");
    assert!(result.contains("..."), "should truncate for >3 ports");
    assert_eq!(result, "80, 443, ... +2");
}

#[test]
fn compact_ports_lists_up_to_three() {
    assert_eq!(compact_ports("0.0.0.0:80->80/tcp, :::443->443/tcp"), "80, 443");
}

#[test]
fn test_format_compose_ps_basic() {
    let raw = "\
NAME        IMAGE          COMMAND                  SERVICE   CREATED        STATUS         PORTS
web-1       nginx:latest   \"/docker-entrypoint.\u{2026}\"   web       2 hours ago    Up 2 hours     0.0.0.0:80->80/tcp
api-1       node:20        \"docker-entrypoint.s\u{2026}\"   api       2 hours ago    Up 2 hours     0.0.0.0:3000->3000/tcp
db-1        postgres:16    \"docker-entrypoint.s\u{2026}\"   db        2 hours ago    Up 2 hours     0.0.0.0:5432->5432/tcp";
    let out = format_compose_ps(raw);
    assert!(out.contains("3"), "should show container count");
    assert!(out.contains("web"), "should show service name");
    assert!(out.contains("api"), "should show service name");
    assert!(out.contains("db"), "should show service name");
    assert!(out.len() < raw.len(), "output should be shorter than raw");
}

#[test]
fn test_format_compose_ps_empty() {
    let out = format_compose_ps("");
    assert!(out.contains("0"), "should show zero containers");
}

#[test]
fn test_format_compose_ps_header_only() {
    let raw = "NAME   IMAGE   COMMAND   SERVICE   CREATED   STATUS   PORTS";
    let out = format_compose_ps(raw);
    assert!(out.contains("0"), "should show zero containers");
}

#[test]
fn test_format_compose_ps_exited_service() {
    let raw = "\
NAME        IMAGE          COMMAND              SERVICE   CREATED      STATUS                     PORTS
worker-1    python:3.12    \"python worker.py\"   worker    5 min ago    Exited (1) 2 minutes ago   ";
    let out = format_compose_ps(raw);
    assert!(out.contains("worker"), "should show service name");
    assert!(out.contains("Exited"), "should show exited status");
}

#[test]
fn format_compose_ps_exact_rows() {
    let raw = "NAME IMAGE COMMAND SERVICE CREATED STATUS PORTS\nweb-1   library/nginx:latest   \"run\"   web   now   Up 2 hours     0.0.0.0:80->80/tcp\n\nshort line\n";
    assert_eq!(
        format_compose_ps(raw),
        "\u{1F433} 2 compose services:\n  web-1 (nginx:latest) Up 2 hours [80]"
    );
}

#[test]
fn format_compose_ps_port_offset_past_line_end() {
    let raw = format!(
        "NAME IMAGE\nx-1 img cmd svc now Up {} 0.0.0.0:80->80/tcp\n",
        "\u{e9}".repeat(30)
    );
    let out = format_compose_ps(&raw);
    assert!(out.starts_with("\u{1F433} 1 compose services:\n  x-1 (img) Up"));
    assert!(out.ends_with("[-]"));
}
