//! Container and Kubernetes deployment scaffold generation.
use crate::generated::GeneratedFiles;
use crate::template::{blank_text, blanks_view, fill, filled, lemma_blank_text, Blank};
use crate::text::{
    chars_of, decimal, decimal_text, decimal_value, law_decimals_stand_for_their_number, lower,
    lower_all, lower_spec, string_from,
};
use vstd::prelude::*;
use vstd::string::*;

verus! {

// ---------------------------------------------------------------------------
// Names
// ---------------------------------------------------------------------------

/// The most characters that a label of the domain name system has.
pub const MAX_LABEL: usize = 63;

/// An ASCII letter or digit.
pub open spec fn plain_char(character: char) -> bool {
    ||| 'a' <= character <= 'z'
    ||| 'A' <= character <= 'Z'
    ||| '0' <= character <= '9'
}

/// A label on its way, and whether something was left out behind it.
pub struct LabelView {
    pub name: Seq<char>,
    pub separator: bool,
}

/// What is left of a text as a label: lower-case letters and digits, with one
/// dash for everything else between them, and no more than fits.
pub open spec fn label_of(text: Seq<char>) -> LabelView
    decreases text.len(),
{
    if text.len() == 0 {
        LabelView { name: Seq::empty(), separator: false }
    } else {
        let before = label_of(text.drop_last());
        if plain_char(text.last()) {
            let joined = if before.separator && 0 < before.name.len() < MAX_LABEL {
                before.name.push('-')
            } else {
                before.name
            };
            LabelView {
                name: if joined.len() < MAX_LABEL {
                    joined.push(lower_spec(text.last()))
                } else {
                    joined
                },
                separator: false,
            }
        } else {
            LabelView { name: before.name, separator: true }
        }
    }
}

/// A text without the dashes at its end.
pub open spec fn without_end_dashes(text: Seq<char>) -> Seq<char>
    decreases text.len(),
{
    if text.len() > 0 && text.last() == '-' {
        without_end_dashes(text.drop_last())
    } else {
        text
    }
}

/// The Kubernetes name of a package.
pub open spec fn application_name(package: Seq<char>) -> Seq<char> {
    let name = without_end_dashes(label_of(package).name);
    if name.len() == 0 {
        "blazingly-app"@
    } else {
        name
    }
}

/// The Kubernetes name of a package.
#[must_use]
pub fn kubernetes_name(package_name: &str) -> (label: String)
    ensures
        label@ == application_name(package_name@),
{
    let characters = chars_of(package_name);
    let mut name: Vec<char> = Vec::new();
    let mut separator = false;
    let mut index: usize = 0;
    assert(package_name@.take(0) =~= Seq::<char>::empty());
    assert(name@ =~= label_of(package_name@.take(0)).name);
    while index < characters.len()
        invariant
            index <= characters@.len(),
            characters@ == package_name@,
            name@ == label_of(package_name@.take(index as int)).name,
            separator == label_of(package_name@.take(index as int)).separator,
        decreases characters@.len() - index,
    {
        let character = characters[index];
        proof {
            let prefix = package_name@.take(index + 1);
            assert(prefix.drop_last() =~= package_name@.take(index as int));
            assert(prefix.last() == character);
        }
        let plain = ('a' <= character && character <= 'z') || ('A' <= character && character <= 'Z')
            || ('0' <= character && character <= '9');
        if plain {
            if separator && name.len() > 0 && name.len() < MAX_LABEL {
                name.push('-');
            }
            separator = false;
            if name.len() < MAX_LABEL {
                name.push(lower(character));
            }
        } else {
            separator = true;
        }
        index += 1;
    }
    assert(package_name@.take(index as int) =~= package_name@);
    while name.len() > 0 && name[name.len() - 1] == '-'
        invariant
            without_end_dashes(name@) == without_end_dashes(label_of(package_name@).name),
        decreases name@.len(),
    {
        let ghost before = name@;
        let dropped = name.pop();
        assert(name@ =~= before.drop_last());
    }
    if name.len() == 0 {
        "blazingly-app".to_owned()
    } else {
        string_from(name.as_slice())
    }
}

/// A character of a label.
pub open spec fn label_char(character: char) -> bool {
    ||| 'a' <= character <= 'z'
    ||| '0' <= character <= '9'
    ||| character == '-'
}

/// A label of the domain name system.
pub open spec fn is_dns_label(text: Seq<char>) -> bool {
    &&& 0 < text.len() <= MAX_LABEL
    &&& forall|i: int| 0 <= i < text.len() ==> label_char(#[trigger] text[i])
    &&& text[0] != '-'
    &&& text.last() != '-'
}

/// No two dashes stand side by side.
pub open spec fn single_dashes(text: Seq<char>) -> bool {
    forall|i: int| 0 <= i < text.len() - 1 && #[trigger] text[i] == '-' ==> text[i + 1] != '-'
}

proof fn lemma_label(text: Seq<char>)
    ensures
        ({
            let name = label_of(text).name;
            &&& name.len() <= MAX_LABEL
            &&& forall|i: int| 0 <= i < name.len() ==> label_char(#[trigger] name[i])
            &&& name.len() > 0 ==> name[0] != '-'
            &&& name.len() > 0 && name.last() == '-' ==> name.len() == MAX_LABEL
            &&& single_dashes(name)
        }),
    decreases text.len(),
{
    if text.len() > 0 {
        lemma_label(text.drop_last());
    }
}

proof fn lemma_trimmed(text: Seq<char>)
    requires
        text.len() > 0 ==> text[0] != '-',
    ensures
        ({
            let trimmed = without_end_dashes(text);
            &&& trimmed.len() <= text.len()
            &&& trimmed == text.take(trimmed.len() as int)
            &&& text.len() > 0 ==> trimmed.len() > 0
            &&& trimmed.len() > 0 ==> trimmed.last() != '-'
        }),
    decreases text.len(),
{
    if text.len() > 0 && text.last() == '-' {
        lemma_trimmed(text.drop_last());
        let trimmed = without_end_dashes(text);
        assert(text.drop_last().take(trimmed.len() as int) =~= text.take(trimmed.len() as int));
        assert(text.len() > 1);
    } else {
        assert(text.take(text.len() as int) =~= text);
    }
}

proof fn lemma_settled(package: Seq<char>)
    ensures
        is_dns_label(application_name(package)),
        single_dashes(application_name(package)),
{
    lemma_label(package);
    lemma_trimmed(label_of(package).name);
    reveal_strlit("blazingly-app");
}

proof fn lemma_label_of_settled(text: Seq<char>, count: int)
    requires
        is_dns_label(text),
        single_dashes(text),
        0 <= count <= text.len(),
    ensures
        ({
            let prefix = text.take(count);
            let label = label_of(prefix);
            if count > 0 && text[count - 1] == '-' {
                label.name == prefix.drop_last() && label.separator
            } else {
                label.name == prefix && !label.separator
            }
        }),
    decreases count,
{
    if count > 0 {
        lemma_label_of_settled(text, count - 1);
        let prefix = text.take(count);
        let shorter = text.take(count - 1);
        assert(prefix.drop_last() =~= shorter);
        let last = text[count - 1];
        assert(label_char(last));
        if last != '-' {
            assert(plain_char(last));
            assert(lower_spec(last) == last);
            if count > 1 && text[count - 2] == '-' {
                assert(shorter.drop_last().push('-') =~= shorter);
                assert(count - 2 > 0);
            }
            assert(shorter.push(last) =~= prefix);
        } else {
            assert(!plain_char(last));
            if count > 1 {
                assert(text[count - 2] != '-');
            }
        }
    } else {
        assert(text.take(0) =~= Seq::<char>::empty());
    }
}

/// Names are valid labels of the domain name system, without two dashes side
/// by side.
pub proof fn law_names_are_dns_labels(package: Seq<char>)
    ensures
        is_dns_label(application_name(package)),
        single_dashes(application_name(package)),
{
    lemma_settled(package);
}

/// Names are stable: the name of a name is that name.
pub proof fn law_names_are_stable(package: Seq<char>)
    ensures
        application_name(application_name(package)) == application_name(package),
{
    let name = application_name(package);
    lemma_settled(package);
    lemma_label_of_settled(name, name.len() as int);
    assert(name.take(name.len() as int) =~= name);
}

// ---------------------------------------------------------------------------
// Configuration
// ---------------------------------------------------------------------------

/// Configuration for the generated container and Kubernetes deployment.
#[derive(Clone, Debug, PartialEq, Eq)]
pub struct KubernetesConfig {
    pub application_name: String,
    pub container_image: String,
    pub ingress_host: String,
    pub min_replicas: u32,
    pub max_replicas: u32,
    pub target_cpu_utilization: u32,
}

impl KubernetesConfig {
    #[must_use]
    pub fn new(package_name: &str) -> (config: Self)
        ensures
            config.application_name@ == application_name(package_name@),
            config.container_image@ == application_name(package_name@) + ":latest"@,
            config.ingress_host@ == application_name(package_name@) + ".example.com"@,
            config.min_replicas == 2,
            config.max_replicas == 32,
            config.target_cpu_utilization == 60,
    {
        let application_name = kubernetes_name(package_name);
        let mut container_image = application_name.clone();
        container_image.append(":latest");
        let mut ingress_host = application_name.clone();
        ingress_host.append(".example.com");
        KubernetesConfig {
            application_name,
            container_image,
            ingress_host,
            min_replicas: 2,
            max_replicas: 32,
            target_cpu_utilization: 60,
        }
    }

    #[must_use]
    pub fn with_container_image(self, image: &str) -> (config: Self)
        ensures
            config.container_image@ == image@,
            config == (KubernetesConfig { container_image: config.container_image, ..self }),
    {
        let mut updated = self;
        updated.container_image = image.to_owned();
        updated
    }

    #[must_use]
    pub fn with_ingress_host(self, host: &str) -> (config: Self)
        ensures
            config.ingress_host@ == host@,
            config == (KubernetesConfig { ingress_host: config.ingress_host, ..self }),
    {
        let mut updated = self;
        updated.ingress_host = host.to_owned();
        updated
    }

    /// At least one replica, and no fewer at most than at least.
    #[must_use]
    pub fn with_replicas(self, minimum: u32, maximum: u32) -> (config: Self)
        requires
            minimum > 0,
            maximum >= minimum,
        ensures
            config == (KubernetesConfig {
                min_replicas: minimum,
                max_replicas: maximum,
                ..self
            }),
    {
        let mut updated = self;
        updated.min_replicas = minimum;
        updated.max_replicas = maximum;
        updated
    }

    /// Between 1 and 100 percent.
    #[must_use]
    pub fn with_target_cpu_utilization(self, percent: u32) -> (config: Self)
        requires
            0 < percent <= 100,
        ensures
            config == (KubernetesConfig { target_cpu_utilization: percent, ..self }),
    {
        let mut updated = self;
        updated.target_cpu_utilization = percent;
        updated
    }
}

// ---------------------------------------------------------------------------
// Files
// ---------------------------------------------------------------------------

/// What stays out of the container build.
pub const DOCKERIGNORE: &'static str = "target\n\
     .git\n\
     .gitignore\n\
     deploy\n\
     README.md\n";

/// The container build.
pub const DOCKERFILE: &'static str = "# Build and tag this image as {image}\n\
     FROM rust:1.88-bookworm AS builder\n\
     WORKDIR /source\n\
     COPY . .\n\
     RUN cargo build --release\n\
     \n\
     FROM debian:bookworm-slim\n\
     COPY --from=builder /source/target/release/{package_name} /usr/local/bin/blazingly-app\n\
     USER 65532:65532\n\
     EXPOSE 3000\n\
     ENTRYPOINT [\"/usr/local/bin/blazingly-app\"]\n";

/// The deployment of the application.
pub const DEPLOYMENT: &'static str = "apiVersion: apps/v1\n\
     kind: Deployment\n\
     metadata:\n\
     \x20 name: {name}\n\
     \x20 labels:\n\
     \x20   app.kubernetes.io/name: {name}\n\
     \x20   app.kubernetes.io/managed-by: blazingly\n\
     spec:\n\
     \x20 replicas: {replicas}\n\
     \x20 strategy:\n\
     \x20   type: RollingUpdate\n\
     \x20   rollingUpdate:\n\
     \x20     maxUnavailable: 0\n\
     \x20     maxSurge: 1\n\
     \x20 selector:\n\
     \x20   matchLabels:\n\
     \x20     app.kubernetes.io/name: {name}\n\
     \x20 template:\n\
     \x20   metadata:\n\
     \x20     labels:\n\
     \x20       app.kubernetes.io/name: {name}\n\
     \x20   spec:\n\
     \x20     automountServiceAccountToken: false\n\
     \x20     terminationGracePeriodSeconds: 30\n\
     \x20     securityContext:\n\
     \x20       runAsNonRoot: true\n\
     \x20       seccompProfile:\n\
     \x20         type: RuntimeDefault\n\
     \x20     topologySpreadConstraints:\n\
     \x20       - maxSkew: 1\n\
     \x20         topologyKey: kubernetes.io/hostname\n\
     \x20         whenUnsatisfiable: ScheduleAnyway\n\
     \x20         labelSelector:\n\
     \x20           matchLabels:\n\
     \x20             app.kubernetes.io/name: {name}\n\
     \x20     containers:\n\
     \x20       - name: app\n\
     \x20         image: {image}\n\
     \x20         imagePullPolicy: IfNotPresent\n\
     \x20         env:\n\
     \x20           - name: BLAZINGLY_LISTEN_ADDRESS\n\
     \x20             value: 0.0.0.0:3000\n\
     \x20           - name: BLAZINGLY_WORKERS\n\
     \x20             value: \"1\"\n\
     \x20           - name: BLAZINGLY_MAX_REQUESTS_PER_CONNECTION\n\
     \x20             value: \"10000\"\n\
     \x20         ports:\n\
     \x20           - name: http\n\
     \x20             containerPort: 3000\n\
     \x20         resources:\n\
     \x20           requests:\n\
     \x20             cpu: 500m\n\
     \x20             memory: 64Mi\n\
     \x20           limits:\n\
     \x20             memory: 256Mi\n\
     \x20         securityContext:\n\
     \x20           allowPrivilegeEscalation: false\n\
     \x20           readOnlyRootFilesystem: true\n\
     \x20           capabilities:\n\
     \x20             drop: [\"ALL\"]\n\
     \x20         startupProbe:\n\
     \x20           httpGet:\n\
     \x20             path: /health\n\
     \x20             port: http\n\
     \x20           periodSeconds: 1\n\
     \x20           failureThreshold: 30\n\
     \x20         readinessProbe:\n\
     \x20           httpGet:\n\
     \x20             path: /health\n\
     \x20             port: http\n\
     \x20           periodSeconds: 2\n\
     \x20           failureThreshold: 3\n\
     \x20         livenessProbe:\n\
     \x20           httpGet:\n\
     \x20             path: /health\n\
     \x20             port: http\n\
     \x20           periodSeconds: 10\n\
     \x20           failureThreshold: 3\n";

/// The service in front of the application.
pub const SERVICE: &'static str = "apiVersion: v1\n\
     kind: Service\n\
     metadata:\n\
     \x20 name: {name}\n\
     \x20 labels:\n\
     \x20   app.kubernetes.io/name: {name}\n\
     spec:\n\
     \x20 type: ClusterIP\n\
     \x20 selector:\n\
     \x20   app.kubernetes.io/name: {name}\n\
     \x20 ports:\n\
     \x20   - name: http\n\
     \x20     port: 80\n\
     \x20     targetPort: http\n";

/// How the application scales.
pub const AUTOSCALER: &'static str = "apiVersion: autoscaling/v2\n\
     kind: HorizontalPodAutoscaler\n\
     metadata:\n\
     \x20 name: {name}\n\
     spec:\n\
     \x20 scaleTargetRef:\n\
     \x20   apiVersion: apps/v1\n\
     \x20   kind: Deployment\n\
     \x20   name: {name}\n\
     \x20 minReplicas: {minimum}\n\
     \x20 maxReplicas: {maximum}\n\
     \x20 behavior:\n\
     \x20   scaleUp:\n\
     \x20     stabilizationWindowSeconds: 0\n\
     \x20     selectPolicy: Max\n\
     \x20     policies:\n\
     \x20       - type: Percent\n\
     \x20         value: 100\n\
     \x20         periodSeconds: 15\n\
     \x20       - type: Pods\n\
     \x20         value: 4\n\
     \x20         periodSeconds: 15\n\
     \x20   scaleDown:\n\
     \x20     stabilizationWindowSeconds: 300\n\
     \x20     policies:\n\
     \x20       - type: Percent\n\
     \x20         value: 25\n\
     \x20         periodSeconds: 60\n\
     \x20 metrics:\n\
     \x20   - type: Resource\n\
     \x20     resource:\n\
     \x20       name: cpu\n\
     \x20       target:\n\
     \x20         type: Utilization\n\
     \x20         averageUtilization: {cpu}\n";

/// How much of the application may be down.
pub const DISRUPTION_BUDGET: &'static str = "apiVersion: policy/v1\n\
     kind: PodDisruptionBudget\n\
     metadata:\n\
     \x20 name: {name}\n\
     spec:\n\
     \x20 minAvailable: 1\n\
     \x20 selector:\n\
     \x20   matchLabels:\n\
     \x20     app.kubernetes.io/name: {name}\n";

/// What both exposure modes share.
pub const BASE_KUSTOMIZATION: &'static str = "apiVersion: kustomize.config.k8s.io/v1beta1\n\
     kind: Kustomization\n\
     resources:\n\
     \x20 - deployment.yaml\n\
     \x20 - service.yaml\n\
     \x20 - hpa.yaml\n\
     \x20 - pdb.yaml\n";

/// Exposure without an ingress.
pub const DIRECT_KUSTOMIZATION: &'static str = "apiVersion: kustomize.config.k8s.io/v1beta1\n\
     kind: Kustomization\n\
     resources:\n\
     \x20 - ../../base\n\
     patches:\n\
     \x20 - path: service-load-balancer.yaml\n";

/// The service that is exposed without an ingress.
pub const DIRECT_SERVICE: &'static str = "apiVersion: v1\n\
     kind: Service\n\
     metadata:\n\
     \x20 name: {name}\n\
     spec:\n\
     \x20 type: LoadBalancer\n";

/// Exposure through an ingress.
pub const NGINX_KUSTOMIZATION: &'static str = "apiVersion: kustomize.config.k8s.io/v1beta1\n\
     kind: Kustomization\n\
     resources:\n\
     \x20 - ../../base\n\
     \x20 - ingress.yaml\n";

/// The ingress.
pub const NGINX_INGRESS: &'static str = "apiVersion: networking.k8s.io/v1\n\
     kind: Ingress\n\
     metadata:\n\
     \x20 name: {name}\n\
     spec:\n\
     \x20 ingressClassName: nginx\n\
     \x20 rules:\n\
     \x20   - host: {host}\n\
     \x20     http:\n\
     \x20       paths:\n\
     \x20         - path: /\n\
     \x20           pathType: Prefix\n\
     \x20           backend:\n\
     \x20             service:\n\
     \x20               name: {name}\n\
     \x20               port:\n\
     \x20                 number: 80\n";

/// How to deploy.
pub const DEPLOYMENT_README: &'static str = "# Kubernetes deployment\n\
     \n\
     Build and publish the application image:\n\
     \n\
     ```sh\n\
     docker build -t {image} .\n\
     docker push {image}\n\
     ```\n\
     \n\
     ## Direct mode\n\
     \n\
     This bypasses an HTTP ingress controller and exposes the Blazingly\n\
     Service through the cluster's `LoadBalancer` implementation:\n\
     \n\
     ```sh\n\
     kubectl apply -k deploy/kubernetes/overlays/direct\n\
     ```\n\
     \n\
     ## NGINX mode\n\
     \n\
     This keeps the Service internal and routes `{host}` through an\n\
     already installed, maintained controller that owns ingress class\n\
     `nginx`:\n\
     \n\
     ```sh\n\
     kubectl apply -k deploy/kubernetes/overlays/nginx\n\
     ```\n\
     \n\
     Do not install the retired community `ingress-nginx` controller for a\n\
     new cluster. Use a maintained NGINX implementation or change\n\
     `ingressClassName` to the controller selected by the platform team.\n\
     \n\
     Both modes use the same `autoscaling/v2` HPA: {minimum} to {maximum} pods, target\n\
     CPU utilization {cpu}%, immediate scale-up with up to 2x/4 extra pods\n\
     per 15 seconds, and a five-minute scale-down stabilization window.\n\
     CPU autoscaling requires Kubernetes resource metrics (commonly\n\
     metrics-server). Scaling cluster nodes additionally requires the\n\
     cloud provider's node autoscaler, Cluster Autoscaler, or Karpenter.\n\
     \n\
     Kubernetes selects a pod per TCP connection, not per HTTP/1 request.\n\
     The Deployment therefore sets\n\
     `BLAZINGLY_MAX_REQUESTS_PER_CONNECTION=10000` so very old keep-alive\n\
     connections eventually reconnect and can reach newly added pods.\n";

/// What stands in the blanks of the files.
pub open spec fn deployment_blanks(package_name: Seq<char>, config: KubernetesConfig) -> Seq<
    (Seq<char>, Seq<char>),
> {
    seq![
        ("name"@, config.application_name@),
        ("package_name"@, package_name),
        ("image"@, config.container_image@),
        ("host"@, config.ingress_host@),
        ("replicas"@, decimal(config.min_replicas as nat)),
        ("minimum"@, decimal(config.min_replicas as nat)),
        ("maximum"@, decimal(config.max_replicas as nat)),
        ("cpu"@, decimal(config.target_cpu_utilization as nat)),
    ]
}

/// The deployment files of an application, by their paths.
pub open spec fn deployment_files(package_name: Seq<char>, config: KubernetesConfig) -> Map<
    Seq<char>,
    Seq<char>,
> {
    let blanks = deployment_blanks(package_name, config);
    Map::empty().insert(".dockerignore"@, DOCKERIGNORE@).insert(
        "Dockerfile"@,
        filled(DOCKERFILE@, blanks),
    ).insert("deploy/README.md"@, filled(DEPLOYMENT_README@, blanks)).insert(
        "deploy/kubernetes/base/deployment.yaml"@,
        filled(DEPLOYMENT@, blanks),
    ).insert("deploy/kubernetes/base/service.yaml"@, filled(SERVICE@, blanks)).insert(
        "deploy/kubernetes/base/hpa.yaml"@,
        filled(AUTOSCALER@, blanks),
    ).insert("deploy/kubernetes/base/pdb.yaml"@, filled(DISRUPTION_BUDGET@, blanks)).insert(
        "deploy/kubernetes/base/kustomization.yaml"@,
        BASE_KUSTOMIZATION@,
    ).insert("deploy/kubernetes/overlays/direct/kustomization.yaml"@, DIRECT_KUSTOMIZATION@).insert(
        "deploy/kubernetes/overlays/direct/service-load-balancer.yaml"@,
        filled(DIRECT_SERVICE@, blanks),
    ).insert("deploy/kubernetes/overlays/nginx/kustomization.yaml"@, NGINX_KUSTOMIZATION@).insert(
        "deploy/kubernetes/overlays/nginx/ingress.yaml"@,
        filled(NGINX_INGRESS@, blanks),
    )
}

/// Generates Docker and Kubernetes deployment files for a native application,
/// on top of others.
pub(crate) fn with_scaffold_files(
    files: GeneratedFiles,
    package_name: &str,
    config: &KubernetesConfig,
) -> (extended: GeneratedFiles)
    ensures
        extended@ == files@.union_prefer_right(deployment_files(package_name@, *config)),
{
    let blanks: Vec<Blank> = vec![
        Blank { name: "name", text: config.application_name.clone() },
        Blank { name: "package_name", text: package_name.to_owned() },
        Blank { name: "image", text: config.container_image.clone() },
        Blank { name: "host", text: config.ingress_host.clone() },
        Blank { name: "replicas", text: decimal_text(config.min_replicas as u64) },
        Blank { name: "minimum", text: decimal_text(config.min_replicas as u64) },
        Blank { name: "maximum", text: decimal_text(config.max_replicas as u64) },
        Blank { name: "cpu", text: decimal_text(config.target_cpu_utilization as u64) },
    ];
    assert(blanks_view(blanks@) =~= deployment_blanks(package_name@, *config));
    let extended = files.with(".dockerignore", DOCKERIGNORE.to_owned()).with(
        "Dockerfile",
        fill(DOCKERFILE, &blanks),
    ).with("deploy/README.md", fill(DEPLOYMENT_README, &blanks)).with(
        "deploy/kubernetes/base/deployment.yaml",
        fill(DEPLOYMENT, &blanks),
    ).with("deploy/kubernetes/base/service.yaml", fill(SERVICE, &blanks)).with(
        "deploy/kubernetes/base/hpa.yaml",
        fill(AUTOSCALER, &blanks),
    ).with("deploy/kubernetes/base/pdb.yaml", fill(DISRUPTION_BUDGET, &blanks)).with(
        "deploy/kubernetes/base/kustomization.yaml",
        BASE_KUSTOMIZATION.to_owned(),
    ).with(
        "deploy/kubernetes/overlays/direct/kustomization.yaml",
        DIRECT_KUSTOMIZATION.to_owned(),
    ).with(
        "deploy/kubernetes/overlays/direct/service-load-balancer.yaml",
        fill(DIRECT_SERVICE, &blanks),
    ).with(
        "deploy/kubernetes/overlays/nginx/kustomization.yaml",
        NGINX_KUSTOMIZATION.to_owned(),
    ).with("deploy/kubernetes/overlays/nginx/ingress.yaml", fill(NGINX_INGRESS, &blanks));
    assert(extended@ =~= files@.union_prefer_right(deployment_files(package_name@, *config)));
    extended
}

/// Generates Docker and Kubernetes deployment files for a native application.
#[must_use]
pub fn scaffold_files(package_name: &str, config: &KubernetesConfig) -> (files: GeneratedFiles)
    ensures
        files@ == deployment_files(package_name@, *config),
{
    let files = with_scaffold_files(GeneratedFiles::new(), package_name, config);
    assert(files@ =~= deployment_files(package_name@, *config));
    files
}

/// The blanks of a deployment are filled with what was configured: the names and
/// the image as they stand, the numbers as decimals. A deployment starts with as
/// many replicas as it keeps at least.
pub proof fn law_deployments_are_as_configured(package_name: Seq<char>, config: KubernetesConfig)
    ensures
        ({
            let blanks = deployment_blanks(package_name, config);
            &&& blank_text(blanks, "name"@) == config.application_name@
            &&& blank_text(blanks, "package_name"@) == package_name
            &&& blank_text(blanks, "image"@) == config.container_image@
            &&& blank_text(blanks, "host"@) == config.ingress_host@
            &&& decimal_value(blank_text(blanks, "replicas"@)) == config.min_replicas as nat
            &&& decimal_value(blank_text(blanks, "minimum"@)) == config.min_replicas as nat
            &&& decimal_value(blank_text(blanks, "maximum"@)) == config.max_replicas as nat
            &&& decimal_value(blank_text(blanks, "cpu"@)) == config.target_cpu_utilization as nat
        }),
{
    let blanks = deployment_blanks(package_name, config);
    reveal_strlit("name");
    reveal_strlit("package_name");
    reveal_strlit("image");
    reveal_strlit("host");
    reveal_strlit("replicas");
    reveal_strlit("minimum");
    reveal_strlit("maximum");
    reveal_strlit("cpu");
    assert("name"@[0] == 'n' && "package_name"@[0] == 'p' && "image"@[0] == 'i' && "host"@[0] == 'h'
        && "replicas"@[0] == 'r' && "minimum"@[1] == 'i' && "maximum"@[1] == 'a' && "minimum"@[0]
        == 'm' && "maximum"@[0] == 'm' && "cpu"@[0] == 'c');
    lemma_blank_text(blanks, "name"@, 0);
    lemma_blank_text(blanks, "package_name"@, 1);
    lemma_blank_text(blanks, "image"@, 2);
    lemma_blank_text(blanks, "host"@, 3);
    lemma_blank_text(blanks, "replicas"@, 4);
    lemma_blank_text(blanks, "minimum"@, 5);
    lemma_blank_text(blanks, "maximum"@, 6);
    lemma_blank_text(blanks, "cpu"@, 7);
    law_decimals_stand_for_their_number(config.min_replicas as nat);
    law_decimals_stand_for_their_number(config.max_replicas as nat);
    law_decimals_stand_for_their_number(config.target_cpu_utilization as nat);
}

/// A package that already has the form of an application name keeps it, but for
/// the case of its letters.
pub proof fn law_plain_packages_keep_their_name(package: Seq<char>)
    requires
        0 < package.len() <= MAX_LABEL,
        forall|i: int| 0 <= i < package.len() ==> plain_char(#[trigger] package[i]),
    ensures
        application_name(package) == lower_all(package),
{
    lemma_plain_label(package);
    let name = label_of(package).name;
    assert(name.last() == lower_spec(package.last()));
    assert(name.last() != '-');
}

proof fn lemma_plain_label(package: Seq<char>)
    requires
        package.len() <= MAX_LABEL,
        forall|i: int| 0 <= i < package.len() ==> plain_char(#[trigger] package[i]),
    ensures
        label_of(package).name == lower_all(package),
        !label_of(package).separator,
    decreases package.len(),
{
    if package.len() > 0 {
        let before = package.drop_last();
        assert forall|i: int| 0 <= i < before.len() implies plain_char(#[trigger] before[i]) by {
            assert(before[i] == package[i]);
        }
        lemma_plain_label(before);
        assert(plain_char(package[package.len() - 1]));
        assert(label_of(package).name =~= lower_all(package));
    } else {
        assert(label_of(package).name =~= lower_all(package));
    }
}

/// A deployment consists of twelve files, whatever is configured.
pub proof fn law_deployments_have_their_files(
    package_name: Seq<char>,
    config: KubernetesConfig,
    path: Seq<char>,
)
    ensures
        deployment_files(package_name, config).contains_key(path) <==> (path == ".dockerignore"@
            || path == "Dockerfile"@ || path == "deploy/README.md"@ || path
            == "deploy/kubernetes/base/deployment.yaml"@ || path
            == "deploy/kubernetes/base/service.yaml"@ || path
            == "deploy/kubernetes/base/hpa.yaml"@ || path == "deploy/kubernetes/base/pdb.yaml"@
            || path == "deploy/kubernetes/base/kustomization.yaml"@ || path
            == "deploy/kubernetes/overlays/direct/kustomization.yaml"@ || path
            == "deploy/kubernetes/overlays/direct/service-load-balancer.yaml"@ || path
            == "deploy/kubernetes/overlays/nginx/kustomization.yaml"@ || path
            == "deploy/kubernetes/overlays/nginx/ingress.yaml"@),
{
}

} // verus!
