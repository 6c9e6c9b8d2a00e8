use rami_api_deps::path::DescriptorPath;
use rami_api_deps::project::{
    extract_include, extract_includes, is_test_reference, project_name_from_path, Project,
};
use rami_api_deps::text::NotFound;

fn below_root(text: &str) -> DescriptorPath {
    DescriptorPath::new("/").join(text)
}

fn shown(path: &DescriptorPath) -> String {
    format!("{}{}", path.root, path.segments.join("/"))
}

#[test]
fn project_test_extract_includes() {
    let input = r#"
        <Project Sdk="Microsoft.NET.Sdk">
            <PropertyGroup>
                <TargetFramework>net7.0</TargetFramework>
                <AzureFunctionsVersion>v4</AzureFunctionsVersion>
                <OutputType>Exe</OutputType>
                <ImplicitUsings>enable</ImplicitUsings>
                <Nullable>enable</Nullable>
                <UserSecretsId>56c7c508-eb73-4666-a18f-459934dda267</UserSecretsId>
                <Configurations>Debug;Release;QuickDebug</Configurations>
            </PropertyGroup>
            <ItemGroup>
                <PackageReference Include="Azure.Storage.Blobs" Version="12.17.0" />
                <PackageReference Include="Azure.Storage.Files.Shares" Version="12.15.0" />
                <PackageReference Include="Azure.Storage.Queues" Version="12.15.0" />
                <PackageReference Include="Microsoft.Azure.Functions.Worker" Version="1.19.0" />
                <PackageReference Include="Microsoft.Azure.Functions.Worker.Extensions.Storage" Version="6.1.0" />
                <PackageReference Include="Microsoft.Azure.Functions.Worker.Sdk" Version="1.14.0" />
                <PackageReference Include="Microsoft.Extensions.Azure" Version="1.7.0" />
            </ItemGroup>
            <ItemGroup>
                <ProjectReference Include="..\..\SharedLibraries\Shared.Api.ServiceBus\Shared.Api.ServiceBus.csproj" />
                <ProjectReference Include="..\..\SharedLibraries\Shared.Infrastructure\Shared.Infrastructure.csproj" />
                <ProjectReference Include="..\WashingMachine\WashingMachine\WashingMachine.csproj" />
            </ItemGroup>
            <ItemGroup>
                <None Update="host.json">
                <CopyToOutputDirectory>PreserveNewest</CopyToOutputDirectory>
                </None>
                <None Update="local.settings.json">
                <CopyToOutputDirectory>Always</CopyToOutputDirectory>
                <CopyToPublishDirectory>Never</CopyToPublishDirectory>
                </None>
            </ItemGroup>
            <ItemGroup>
                <Using Include="System.Threading.ExecutionContext" Alias="ExecutionContext" />
            </ItemGroup>
        </Project>
        "#;

    let mut includes = Vec::new();
    for line in input.lines() {
        if let Ok((_, found)) = extract_include(line) {
            includes.push(found);
        }
    }

    assert_eq!(
        includes,
        vec![
            r#"..\..\SharedLibraries\Shared.Api.ServiceBus\Shared.Api.ServiceBus.csproj"#,
            r#"..\..\SharedLibraries\Shared.Infrastructure\Shared.Infrastructure.csproj"#,
            r#"..\WashingMachine\WashingMachine\WashingMachine.csproj"#
        ]
    );
}

#[test]
fn extract_include_hands_back_what_follows_the_value() {
    let line = "\t  <ProjectReference   Include=\"..\\A\\A.csproj\" Condition=\"x\" />";
    assert_eq!(
        extract_include(line),
        Ok((" Condition=\"x\" />", "..\\A\\A.csproj".to_string()))
    );
}

#[test]
fn extract_include_accepts_no_space_before_the_attribute() {
    assert_eq!(
        extract_include("<ProjectReferenceInclude=\"a.csproj\"/>"),
        Ok(("/>", "a.csproj".to_string()))
    );
}

#[test]
fn extract_include_rejects_other_elements() {
    assert_eq!(
        extract_include("    <PackageReference Include=\"Azure.Storage.Blobs\" Version=\"12.17.0\" />"),
        Err(NotFound)
    );
    assert_eq!(extract_include(""), Err(NotFound));
    assert_eq!(extract_include("x <ProjectReference Include=\"a.csproj\" />"), Err(NotFound));
}

#[test]
fn extract_include_wants_the_quote_right_after_the_attribute() {
    assert_eq!(extract_include("<ProjectReference Include= \"a.csproj\" />"), Err(NotFound));
    assert_eq!(extract_include("<ProjectReference Include='a.csproj' />"), Err(NotFound));
    assert_eq!(extract_include("<ProjectReference Update=\"a.csproj\" />"), Err(NotFound));
}

#[test]
fn extract_include_wants_a_closing_quote() {
    assert_eq!(extract_include("<ProjectReference Include=\"a.csproj />"), Err(NotFound));
}

#[test]
fn extract_include_takes_an_empty_value() {
    assert_eq!(
        extract_include("<ProjectReference Include=\"\" />"),
        Ok((" />", String::new()))
    );
}

#[test]
fn test_lines_are_recognised_by_each_pattern() {
    assert!(is_test_reference("<ProjectReference Include=\"..\\Api.Tests\\Api.Tests.csproj\" />"));
    assert!(is_test_reference("x/UnitTests.csproj"));
    assert!(is_test_reference("x/UnitTest.csproj"));
    assert!(is_test_reference("Module.Test/Other.csproj"));
    assert!(is_test_reference("a.Testing"));
    assert!(!is_test_reference("<ProjectReference Include=\"..\\Api\\Api.csproj\" />"));
    assert!(!is_test_reference("Test"));
    assert!(!is_test_reference("Tests.csharp"));
    assert!(!is_test_reference(""));
}

#[test]
fn project_skips_the_test_reference_of_three() {
    let text = "<Project>\n  <ItemGroup>\n    <ProjectReference Include=\"..\\One\\One.csproj\" />\n    <ProjectReference Include=\"..\\One.Tests\\One.Tests.csproj\" />\n    <ProjectReference Include=\"..\\Two\\Two.csproj\" />\n  </ItemGroup>\n</Project>\n";
    let project = Project::new(below_root("repo/SE-CustomerPortal/Module/Api/Api.csproj"), text);
    assert_eq!(shown(&project.path), "/repo/SE-CustomerPortal/Module/Api/Api.csproj");
    assert_eq!(project.references.len(), 2);
    assert_eq!(
        shown(&project.references[0].include_path),
        "/repo/SE-CustomerPortal/Module/One/One.csproj"
    );
    assert_eq!(
        shown(&project.references[1].include_path),
        "/repo/SE-CustomerPortal/Module/Two/Two.csproj"
    );
}

#[test]
fn project_resolves_the_references_of_a_real_descriptor() {
    let text = r#"
        <Project Sdk="Microsoft.NET.Sdk">
            <PropertyGroup>
                <TargetFramework>net7.0</TargetFramework>
                <AzureFunctionsVersion>v4</AzureFunctionsVersion>
                <OutputType>Exe</OutputType>
                <ImplicitUsings>enable</ImplicitUsings>
                <Nullable>enable</Nullable>
                <UserSecretsId>56c7c508-eb73-4666-a18f-459934dda267</UserSecretsId>
                <Configurations>Debug;Release;QuickDebug</Configurations>
            </PropertyGroup>
            <ItemGroup>
                <PackageReference Include="Azure.Storage.Blobs" Version="12.17.0" />
                <PackageReference Include="Azure.Storage.Files.Shares" Version="12.15.0" />
                <PackageReference Include="Azure.Storage.Queues" Version="12.15.0" />
                <PackageReference Include="Microsoft.Azure.Functions.Worker" Version="1.19.0" />
                <PackageReference Include="Microsoft.Azure.Functions.Worker.Extensions.Storage" Version="6.1.0" />
                <PackageReference Include="Microsoft.Azure.Functions.Worker.Sdk" Version="1.14.0" />
                <PackageReference Include="Microsoft.Extensions.Azure" Version="1.7.0" />
            </ItemGroup>
            <ItemGroup>
                <ProjectReference Include="..\..\SharedLibraries\Shared.Api.ServiceBus\Shared.Api.ServiceBus.csproj" />
                <ProjectReference Include="..\..\SharedLibraries\Shared.Infrastructure\Shared.Infrastructure.csproj" />
                <ProjectReference Include="..\WashingMachine\WashingMachine\WashingMachine.csproj" />
            </ItemGroup>
            <ItemGroup>
                <None Update="host.json">
                <CopyToOutputDirectory>PreserveNewest</CopyToOutputDirectory>
                </None>
                <None Update="local.settings.json">
                <CopyToOutputDirectory>Always</CopyToOutputDirectory>
                <CopyToPublishDirectory>Never</CopyToPublishDirectory>
                </None>
            </ItemGroup>
            <ItemGroup>
                <Using Include="System.Threading.ExecutionContext" Alias="ExecutionContext" />
            </ItemGroup>
        </Project>
        "#;
    let path = below_root(
        "work/SE-CustomerPortal/CustomerPortal/functions/Laundry/Laundry.Functions/Laundry.Functions.csproj",
    );
    let project = Project::new(path, text);
    let shown_references: Vec<String> =
        project.references.iter().map(|r| shown(&r.include_path)).collect();
    assert_eq!(
        shown_references,
        vec![
            "/work/SE-CustomerPortal/CustomerPortal/functions/SharedLibraries/Shared.Api.ServiceBus/Shared.Api.ServiceBus.csproj",
            "/work/SE-CustomerPortal/CustomerPortal/functions/SharedLibraries/Shared.Infrastructure/Shared.Infrastructure.csproj",
            "/work/SE-CustomerPortal/CustomerPortal/functions/Laundry/WashingMachine/WashingMachine/WashingMachine.csproj",
        ]
    );
}

#[test]
fn project_without_references_has_none() {
    let project = Project::new(below_root("a/b.csproj"), "<Project>\r\n</Project>\r\n");
    assert!(project.references.is_empty());
    let empty = Project::new(below_root("a/b.csproj"), "");
    assert!(empty.references.is_empty());
}

#[test]
fn project_reads_lines_that_end_in_carriage_return() {
    let text = "<Project>\r\n<ProjectReference Include=\"..\\C\\C.csproj\" />\r\n</Project>";
    let project = Project::new(below_root("a/b/B.csproj"), text);
    assert_eq!(project.references.len(), 1);
    assert_eq!(shown(&project.references[0].include_path), "/a/C/C.csproj");
}

#[test]
fn extract_includes_keeps_the_order_of_declaration() {
    let text = "<ProjectReference Include=\"z\\Z.csproj\" />\n<ProjectReference Include=\"a\\A.csproj\" />";
    let paths = extract_includes(&below_root("dir/P.csproj"), text);
    let shown_paths: Vec<String> = paths.iter().map(shown).collect();
    assert_eq!(shown_paths, vec!["/dir/z/Z.csproj", "/dir/a/A.csproj"]);
}

#[test]
fn references_above_the_root_stop_at_the_root() {
    let text = "<ProjectReference Include=\"..\\..\\..\\..\\X\\X.csproj\" />";
    let paths = extract_includes(&below_root("a/P.csproj"), text);
    assert_eq!(paths.len(), 1);
    assert_eq!(shown(&paths[0]), "/X/X.csproj");
}

#[test]
fn project_name_drops_the_extension() {
    assert_eq!(project_name_from_path(&below_root("a/b/Shared.Api.csproj")), "Shared.Api");
    assert_eq!(project_name_from_path(&below_root("a/b/Twice.csproj.csproj")), "Twice");
    assert_eq!(project_name_from_path(&below_root("a/b/notes.txt")), "notes.txt");
    assert_eq!(project_name_from_path(&below_root("a/b/.csproj")), "");
    assert_eq!(project_name_from_path(&below_root("a/b/x.csproj.bak")), "x.csproj.bak");
}

#[test]
fn path_filter_covers_the_directory_of_the_project() {
    let project = Project::new(below_root("repo/SE-CustomerPortal/Module/Api/Api.csproj"), "");
    assert_eq!(project.azure_path_filter(), "/Module/Api/*;");
}

#[test]
fn path_filter_is_the_same_on_every_call() {
    let project = Project::new(below_root("repo/SE-CustomerPortal/Module/Api/Api.csproj"), "");
    assert_eq!(project.azure_path_filter(), project.azure_path_filter());
    assert_eq!(project.clone().azure_path_filter(), project.azure_path_filter());
}

#[test]
fn path_filter_is_shared_by_the_files_of_a_directory() {
    let one = Project::new(below_root("repo/SE-CustomerPortal/Module/Api/Api.csproj"), "");
    let other = Project::new(below_root("repo/SE-CustomerPortal/Module/Api/Other.csproj"), "x");
    assert_eq!(one.azure_path_filter(), other.azure_path_filter());
    let elsewhere = Project::new(below_root("repo/SE-CustomerPortal/Module/Web/Api.csproj"), "");
    assert_ne!(one.azure_path_filter(), elsewhere.azure_path_filter());
}

#[test]
fn path_filter_of_a_project_at_the_top_of_the_repository() {
    let project = Project::new(below_root("repo/SE-CustomerPortal/Top.csproj"), "");
    assert_eq!(project.azure_path_filter(), "/*;");
}

#[test]
fn project_clone_keeps_path_and_references() {
    let text = "<ProjectReference Include=\"..\\C\\C.csproj\" />";
    let project = Project::new(below_root("a/b/B.csproj"), text);
    let copy = project.clone();
    assert!(copy.path.same_as(&project.path));
    assert_eq!(copy.references.len(), 1);
    assert!(copy.references[0].include_path.same_as(&project.references[0].include_path));
}
